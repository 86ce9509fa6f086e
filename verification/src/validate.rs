//! Whole-file conformance validation of a physical Ogg bitstream.
//!
//! [`validate`] walks a complete physical bitstream, checks the page-structure
//! rules of RFC 3533 and reports every violation instead of failing on the
//! first one. After junk or damage it rescans for the next checksum-valid page
//! and goes on.
use crate::bytes;
use crate::bytes::{matches_at, read_i64_le, read_u32_le};
use crate::crc;
use crate::crc::compute_page_checksum;
use crate::page;
use crate::page::{flags, lacing_sum};
use crate::serial_map::SerialMap;
use crate::text;
use crate::text::{owned, push_decimal, push_hex_u32, push_signed};
use vstd::prelude::*;
use vstd::string::*;

verus! {

/// Maximum size of one page in bytes: the fixed header, a full segment table
/// and a full body.
pub const MAX_PAGE_SIZE: usize = 27 + 255 + 255 * 255;

/// Cap on the number of [`Issue`]s that a report retains.
pub const MAX_ISSUES: usize = 1024;

/// How serious a rule violation is.
#[derive(Clone, Copy, Debug, PartialEq, Eq, PartialOrd, Ord, Hash, Structural)]
pub enum Severity {
    /// A strict reader may reject the file.
    Error,
    /// Readers generally accept the file.
    Warning,
}

/// The page-structure rule that an [`Issue`] violates.
#[non_exhaustive]
#[derive(Clone, Copy, Debug, PartialEq, Eq, Hash, Structural)]
pub enum Rule {
    /// Bytes that are not part of any page.
    CapturePattern,
    /// The structure version of a page is not 0.
    Version,
    /// The input ends inside a page.
    Truncated,
    /// The page checksum does not match the page bytes.
    CrcMismatch,
    /// A data page for a serial that never had a BOS page.
    MissingBos,
    /// A second BOS page for a serial that is still live.
    DuplicateBos,
    /// A BOS page reuses the serial of a logical bitstream that already ended.
    SerialReuse,
    /// A BOS page behind the data pages of a link that is still open.
    BosNotContiguous,
    /// A logical bitstream was never closed by an EOS page.
    MissingEos,
    /// A page for a logical bitstream behind its EOS page.
    PageAfterEos,
    /// A BOS page carries the continued flag.
    ContinuedBos,
    /// The first page of a logical bitstream has a nonzero sequence number.
    SequenceStart,
    /// The sequence number jumped forward.
    SequenceGap,
    /// The sequence number repeated or went backwards.
    SequenceRegression,
    /// The granule position of a packet-completing page went backwards.
    GranuleRegression,
    /// A page on which no packet finishes carries a granule position.
    SpuriousGranule,
    /// A page on which packets finish carries granule position -1.
    MissingGranule,
    /// The continued flag is set but no packet is open.
    ContinuedWithoutPartial,
    /// A packet is open but the continued flag is unset.
    PartialNotContinued,
    /// An EOS page leaves a packet open.
    EosMidPacket,
}

impl Rule {
    /// The severity of a violation of this rule.
    pub open spec fn severity_of(self) -> Severity {
        match self {
            Rule::SequenceStart | Rule::MissingGranule => Severity::Warning,
            _ => Severity::Error,
        }
    }

    /// The severity of a violation of this rule.
    pub fn severity(self) -> (r: Severity)
        ensures
            r == self.severity_of(),
    {
        match self {
            Rule::SequenceStart | Rule::MissingGranule => Severity::Warning,
            _ => Severity::Error,
        }
    }

    /// The rule's name.
    pub open spec fn name_of(self) -> Seq<char> {
        match self {
            Rule::CapturePattern => "capture-pattern"@,
            Rule::Version => "version"@,
            Rule::Truncated => "truncated"@,
            Rule::CrcMismatch => "crc-mismatch"@,
            Rule::MissingBos => "missing-bos"@,
            Rule::DuplicateBos => "duplicate-bos"@,
            Rule::SerialReuse => "serial-reuse"@,
            Rule::BosNotContiguous => "bos-not-contiguous"@,
            Rule::MissingEos => "missing-eos"@,
            Rule::PageAfterEos => "page-after-eos"@,
            Rule::ContinuedBos => "continued-bos"@,
            Rule::SequenceStart => "sequence-start"@,
            Rule::SequenceGap => "sequence-gap"@,
            Rule::SequenceRegression => "sequence-regression"@,
            Rule::GranuleRegression => "granule-regression"@,
            Rule::SpuriousGranule => "spurious-granule"@,
            Rule::MissingGranule => "missing-granule"@,
            Rule::ContinuedWithoutPartial => "continued-without-partial"@,
            Rule::PartialNotContinued => "partial-not-continued"@,
            Rule::EosMidPacket => "eos-mid-packet"@,
        }
    }

    /// The rule's name.
    pub fn name(&self) -> (r: &'static str)
        ensures
            r@ == self.name_of(),
    {
        match self {
            Rule::CapturePattern => "capture-pattern",
            Rule::Version => "version",
            Rule::Truncated => "truncated",
            Rule::CrcMismatch => "crc-mismatch",
            Rule::MissingBos => "missing-bos",
            Rule::DuplicateBos => "duplicate-bos",
            Rule::SerialReuse => "serial-reuse",
            Rule::BosNotContiguous => "bos-not-contiguous",
            Rule::MissingEos => "missing-eos",
            Rule::PageAfterEos => "page-after-eos",
            Rule::ContinuedBos => "continued-bos",
            Rule::SequenceStart => "sequence-start",
            Rule::SequenceGap => "sequence-gap",
            Rule::SequenceRegression => "sequence-regression",
            Rule::GranuleRegression => "granule-regression",
            Rule::SpuriousGranule => "spurious-granule",
            Rule::MissingGranule => "missing-granule",
            Rule::ContinuedWithoutPartial => "continued-without-partial",
            Rule::PartialNotContinued => "partial-not-continued",
            Rule::EosMidPacket => "eos-mid-packet",
        }
    }
}

/// One rule violation.
#[derive(Clone, Debug)]
pub struct Issue {
    /// The rule violated.
    pub rule: Rule,
    /// The severity of `rule`.
    pub severity: Severity,
    /// Where in the input the violation was observed.
    pub byte_offset: u64,
    /// Ordinal of the offending page among the accepted pages, where the issue
    /// is tied to one.
    pub page_index: Option<u64>,
    /// The serial that the issue concerns, where known.
    pub serial: Option<u32>,
    /// Expected and actual values, in words.
    pub detail: String,
}

/// What an [`Issue`] stands for.
#[verifier::ext_equal]
pub struct IssueView {
    pub rule: Rule,
    pub severity: Severity,
    pub byte_offset: u64,
    pub page_index: Option<u64>,
    pub serial: Option<u32>,
    pub detail: Seq<char>,
}

impl View for Issue {
    type V = IssueView;

    open spec fn view(&self) -> IssueView {
        IssueView {
            rule: self.rule,
            severity: self.severity,
            byte_offset: self.byte_offset,
            page_index: self.page_index,
            serial: self.serial,
            detail: self.detail@,
        }
    }
}

impl IssueView {
    /// The issue as one line of text.
    pub open spec fn line(self) -> Seq<char> {
        let place = "["@ + (match self.severity {
            Severity::Error => "Error"@,
            Severity::Warning => "Warning"@,
        }) + "] "@ + self.rule.name_of() + " @ byte "@ + text::decimal(self.byte_offset as nat);
        let page = match self.page_index {
            Some(p) => " (page "@ + text::decimal(p as nat) + ")"@,
            None => Seq::empty(),
        };
        let serial = match self.serial {
            Some(s) => " (serial "@ + text::hex_u32(s) + ")"@,
            None => Seq::empty(),
        };
        place + page + serial + ": "@ + self.detail
    }
}

impl Issue {
    /// The issue as one line of text.
    pub fn to_line(&self) -> (r: String)
        ensures
            r@ == self@.line(),
    {
        let mut out = owned("[");
        match self.severity {
            Severity::Error => out.append("Error"),
            Severity::Warning => out.append("Warning"),
        }
        out.append("] ");
        out.append(self.rule.name());
        out.append(" @ byte ");
        push_decimal(&mut out, self.byte_offset);
        let ghost place = out@;
        if let Some(p) = self.page_index {
            out.append(" (page ");
            push_decimal(&mut out, p);
            out.append(")");
        }
        let ghost paged = out@;
        if let Some(s) = self.serial {
            out.append(" (serial ");
            push_hex_u32(&mut out, s);
            out.append(")");
        }
        out.append(": ");
        out.append(self.detail.as_str());
        assert(out@ =~= self@.line());
        out
    }
}

/// Statistics of the whole file and every rule violation found.
#[derive(Clone, Debug)]
pub struct ConformanceReport {
    /// Structurally accepted pages.
    pub pages: u64,
    /// Logical bitstreams observed, over all chain links.
    pub streams: u32,
    /// Chain links observed.
    pub links: u32,
    /// Bytes that belong to no page.
    pub junk_bytes: u64,
    /// The violations, in file order, at most [`MAX_ISSUES`].
    pub issues: Vec<Issue>,
    /// Violations found beyond the cap.
    pub suppressed_issues: u64,
}

/// What a [`ConformanceReport`] stands for.
#[verifier::ext_equal]
pub struct ReportView {
    pub pages: nat,
    pub streams: u32,
    pub links: u32,
    pub junk_bytes: nat,
    pub issues: Seq<IssueView>,
    pub suppressed_issues: nat,
}

impl View for ConformanceReport {
    type V = ReportView;

    open spec fn view(&self) -> ReportView {
        ReportView {
            pages: self.pages as nat,
            streams: self.streams,
            links: self.links,
            junk_bytes: self.junk_bytes as nat,
            issues: self.issues@.map_values(|i: Issue| i@),
            suppressed_issues: self.suppressed_issues as nat,
        }
    }
}

impl ReportView {
    /// A report of nothing.
    pub open spec fn empty() -> ReportView {
        ReportView {
            pages: 0,
            streams: 0,
            links: 0,
            junk_bytes: 0,
            issues: Seq::empty(),
            suppressed_issues: 0,
        }
    }

    /// The issue list keeps to its cap, and nothing is suppressed before the
    /// cap is reached.
    pub open spec fn capped(self) -> bool {
        &&& self.issues.len() <= 1024
        &&& self.suppressed_issues > 0 ==> self.issues.len() == 1024
    }

    /// The report with `found` added: retained up to the cap, counted beyond.
    pub open spec fn add(self, found: Seq<IssueView>) -> ReportView {
        let all = self.issues + found;
        if all.len() <= 1024 {
            ReportView { issues: all, ..self }
        } else {
            ReportView {
                issues: all.take(1024),
                suppressed_issues: self.suppressed_issues + (all.len() - 1024) as nat,
                ..self
            }
        }
    }

    /// Violations found, retained or not.
    pub open spec fn total(self) -> nat {
        self.issues.len() + self.suppressed_issues
    }

    /// No rule was violated.
    pub open spec fn clean(self) -> bool {
        self.issues.len() == 0 && self.suppressed_issues == 0
    }

    /// The report as text: a summary line and one line for each issue.
    pub open spec fn as_text(self) -> Seq<char> {
        let counts = text::decimal(self.pages) + " pages, "@ + text::decimal(self.streams as nat)
            + " streams, "@ + text::decimal(self.links as nat) + " links, "@ + text::decimal(
            self.junk_bytes,
        ) + " junk bytes: "@ + text::decimal(count_of(self.issues, Severity::Error))
            + " error(s), "@ + text::decimal(count_of(self.issues, Severity::Warning))
            + " warning(s)"@;
        let suppressed = if self.suppressed_issues > 0 {
            " (+"@ + text::decimal(self.suppressed_issues) + " suppressed)"@
        } else {
            Seq::empty()
        };
        counts + suppressed + "\n"@ + lines_of(self.issues)
    }
}

/// The issues of `s` that violate `rule`, in their order.
pub open spec fn issues_of(s: Seq<IssueView>, rule: Rule) -> Seq<IssueView>
    decreases s.len(),
{
    if s.len() == 0 {
        Seq::empty()
    } else if s.last().rule == rule {
        issues_of(s.drop_last(), rule).push(s.last())
    } else {
        issues_of(s.drop_last(), rule)
    }
}

/// Number of issues of a severity.
pub open spec fn count_of(s: Seq<IssueView>, severity: Severity) -> nat
    decreases s.len(),
{
    if s.len() == 0 {
        0
    } else {
        count_of(s.drop_last(), severity) + if s.last().severity == severity {
            1nat
        } else {
            0nat
        }
    }
}

/// The lines of `s`, each indented and ended.
pub open spec fn lines_of(s: Seq<IssueView>) -> Seq<char>
    decreases s.len(),
{
    if s.len() == 0 {
        Seq::empty()
    } else {
        lines_of(s.drop_last()) + "  "@ + s.last().line() + "\n"@
    }
}

/// Adding issues keeps the cap, adds them to the total and loses none: adding
/// in two steps is adding at once.
pub proof fn law_add(r: ReportView, a: Seq<IssueView>, b: Seq<IssueView>)
    requires
        r.capped(),
    ensures
        r.add(a).capped(),
        r.add(a).total() == r.total() + a.len(),
        r.add(a).add(b) == r.add(a + b),
        r.add(Seq::empty()) == r,
{
    assert(r.issues + a + b =~= r.issues + (a + b));
    if (r.issues + a).len() > 1024 {
        assert(((r.issues + a).take(1024) + b).take(1024) =~= (r.issues + a + b).take(1024));
    }
    assert(r.add(a).add(b) =~= r.add(a + b));
    assert(r.issues + Seq::<IssueView>::empty() =~= r.issues);
}

impl Default for ConformanceReport {
    fn default() -> (r: Self)
        ensures
            r@ == ReportView::empty(),
    {
        let r = ConformanceReport {
            pages: 0,
            streams: 0,
            links: 0,
            junk_bytes: 0,
            issues: Vec::new(),
            suppressed_issues: 0,
        };
        assert(r@ =~= ReportView::empty());
        r
    }
}

impl ConformanceReport {
    /// Whether the file violated no rule at all.
    pub fn is_clean(&self) -> (r: bool)
        ensures
            r == self@.clean(),
    {
        self.issues.is_empty() && self.suppressed_issues == 0
    }

    fn count(&self, severity: Severity) -> (n: usize)
        ensures
            n == count_of(self@.issues, severity),
    {
        let mut n: usize = 0;
        let mut i: usize = 0;
        while i < self.issues.len()
            invariant
                i <= self.issues@.len(),
                n <= i,
                n == count_of(self@.issues.take(i as int), severity),
            decreases self.issues@.len() - i,
        {
            assert(self@.issues.take(i + 1).drop_last() =~= self@.issues.take(i as int));
            if self.issues[i].severity == severity {
                n += 1;
            }
            i += 1;
        }
        assert(self@.issues.take(i as int) =~= self@.issues);
        n
    }

    /// Number of error issues retained.
    pub fn error_count(&self) -> (n: usize)
        ensures
            n == count_of(self@.issues, Severity::Error),
    {
        self.count(Severity::Error)
    }

    /// Number of warning issues retained.
    pub fn warning_count(&self) -> (n: usize)
        ensures
            n == count_of(self@.issues, Severity::Warning),
    {
        self.count(Severity::Warning)
    }

    /// Whether at least one retained issue violates `rule`.
    pub fn has(&self, rule: Rule) -> (r: bool)
        ensures
            r == exists|i: int| 0 <= i < self@.issues.len() && (#[trigger] self@.issues[i]).rule
                == rule,
    {
        let mut i: usize = 0;
        while i < self.issues.len()
            invariant
                i <= self.issues@.len(),
                forall|k: int| 0 <= k < i ==> (#[trigger] self@.issues[k]).rule != rule,
            decreases self.issues@.len() - i,
        {
            if self.issues[i].rule == rule {
                assert(self@.issues[i as int].rule == rule);
                return true;
            }
            i += 1;
        }
        false
    }

    /// The retained issues that violate `rule`, in file order.
    pub fn of_rule(&self, rule: Rule) -> (found: Vec<&Issue>)
        ensures
            found@.map_values(|i: &Issue| i@) == issues_of(self@.issues, rule),
    {
        let mut found: Vec<&Issue> = Vec::new();
        let mut i: usize = 0;
        assert(found@.map_values(|i: &Issue| i@) =~= issues_of(self@.issues.take(0), rule));
        while i < self.issues.len()
            invariant
                i <= self.issues@.len(),
                found@.map_values(|i: &Issue| i@) == issues_of(self@.issues.take(i as int), rule),
            decreases self.issues@.len() - i,
        {
            let ghost before = found@.map_values(|i: &Issue| i@);
            assert(self@.issues.take(i + 1).drop_last() =~= self@.issues.take(i as int));
            if self.issues[i].rule == rule {
                found.push(&self.issues[i]);
                assert(found@.map_values(|i: &Issue| i@) =~= before.push(self@.issues[i as int]));
            }
            i += 1;
        }
        assert(self@.issues.take(i as int) =~= self@.issues);
        found
    }

    /// The report as text: a summary line and one line for each issue.
    pub fn to_text(&self) -> (out: String)
        ensures
            out@ == self@.as_text(),
    {
        let mut out = String::new();
        push_decimal(&mut out, self.pages);
        out.append(" pages, ");
        push_decimal(&mut out, self.streams as u64);
        out.append(" streams, ");
        push_decimal(&mut out, self.links as u64);
        out.append(" links, ");
        push_decimal(&mut out, self.junk_bytes);
        out.append(" junk bytes: ");
        push_decimal(&mut out, self.error_count() as u64);
        out.append(" error(s), ");
        push_decimal(&mut out, self.warning_count() as u64);
        out.append(" warning(s)");
        assert(Seq::<char>::empty() + text::decimal(self@.pages) =~= text::decimal(self@.pages));
        let ghost counts = out@;
        if self.suppressed_issues > 0 {
            out.append(" (+");
            push_decimal(&mut out, self.suppressed_issues);
            out.append(" suppressed)");
        }
        out.append("\n");
        let ghost summary = out@;
        let mut i: usize = 0;
        assert(summary + Seq::<char>::empty() =~= summary);
        while i < self.issues.len()
            invariant
                i <= self.issues@.len(),
                out@ == summary + lines_of(self@.issues.take(i as int)),
            decreases self.issues@.len() - i,
        {
            let ghost here = out@;
            assert(self@.issues.take(i + 1).drop_last() =~= self@.issues.take(i as int));
            out.append("  ");
            let line = self.issues[i].to_line();
            out.append(line.as_str());
            out.append("\n");
            assert(out@ =~= summary + lines_of(self@.issues.take(i + 1)));
            i += 1;
        }
        assert(self@.issues.take(i as int) =~= self@.issues);
        assert(out@ =~= self@.as_text());
        out
    }

    /// Adds one issue: retained up to the cap, counted beyond.
    fn push(&mut self, issue: Issue)
        requires
            old(self)@.suppressed_issues < u64::MAX,
            old(self)@.capped(),
        ensures
            final(self)@ == old(self)@.add(seq![issue@]),
            final(self)@.capped(),
            final(self)@.total() == old(self)@.total() + 1,
    {
        let ghost before = self@;
        proof {
            law_add(before, seq![issue@], Seq::empty());
        }
        if self.issues.len() < MAX_ISSUES {
            self.issues.push(issue);
            assert(self@ =~= before.add(seq![issue@]));
        } else {
            self.suppressed_issues = self.suppressed_issues + 1;
            assert((before.issues + seq![issue@]).take(1024) =~= before.issues);
            assert(self@ =~= before.add(seq![issue@]));
        }
    }
}

// ---------------------------------------------------------------------------
// Finding pages
// ---------------------------------------------------------------------------
/// The header fields of a page and where it stands.
pub struct HeadView {
    pub offset: nat,
    pub version: u8,
    pub flags: u8,
    pub granule: i64,
    pub serial: u32,
    pub seq_no: u32,
    pub lacing: Seq<u8>,
}

impl HeadView {
    pub open spec fn continued(self) -> bool {
        page::flag_set(self.flags, flags::CONTINUED)
    }

    pub open spec fn bos(self) -> bool {
        page::flag_set(self.flags, flags::FIRST_PAGE)
    }

    pub open spec fn eos(self) -> bool {
        page::flag_set(self.flags, flags::LAST_PAGE)
    }

    /// Number of packets that finish on the page.
    pub open spec fn ended(self) -> nat {
        page::packets_ended(self.lacing)
    }

    /// Whether the page leaves a packet open.
    pub open spec fn open(self) -> bool {
        page::ends_open(self.lacing)
    }
}

/// What stands at one position of the input.
pub enum Located {
    /// No capture pattern.
    NoCapture,
    /// The input ends inside the page that begins here.
    Truncated { need: nat, have: nat },
    /// A complete page whose checksum does not match.
    BadCrc { claimed_serial: u32, computed: u32, stored: u32, len: nat },
    /// A complete page, and the position behind it.
    Page { head: HeadView, next: nat },
}

/// What stands at `pos`.
pub open spec fn located(data: Seq<u8>, pos: nat) -> Located {
    let rest = data.skip(pos as int);
    if rest.len() < 4 || rest.take(4) != page::CAPTURE_PATTERN@ {
        Located::NoCapture
    } else if rest.len() < 27 {
        Located::Truncated { need: 27, have: rest.len() }
    } else if rest.len() < 27 + rest[26] as nat {
        Located::Truncated { need: 27 + rest[26] as nat, have: rest.len() }
    } else if rest.len() < page::declared_len(rest) {
        Located::Truncated { need: page::declared_len(rest), have: rest.len() }
    } else {
        let whole = rest.take(page::declared_len(rest) as int);
        if crc::stored_crc(whole) != crc::page_crc(whole) {
            Located::BadCrc {
                claimed_serial: bytes::le_u32(rest.skip(14)),
                computed: crc::page_crc(whole),
                stored: crc::stored_crc(whole),
                len: page::declared_len(rest),
            }
        } else {
            Located::Page {
                head: HeadView {
                    offset: pos,
                    version: rest[4],
                    flags: rest[5],
                    granule: bytes::le_i64(rest.skip(6)),
                    serial: bytes::le_u32(rest.skip(14)),
                    seq_no: bytes::le_u32(rest.skip(18)),
                    lacing: rest.subrange(27, 27 + rest[26] as int),
                },
                next: pos + page::declared_len(rest),
            }
        }
    }
}

/// The first position at or behind `from` where a complete page with a
/// matching checksum stands.
pub open spec fn next_valid(data: Seq<u8>, from: nat) -> Option<nat>
    decreases data.len() - from,
{
    if from >= data.len() {
        None
    } else if located(data, from) is Page {
        Some(from)
    } else {
        next_valid(data, from + 1)
    }
}

/// The validator accepts a version 0 page exactly where a page can be read, and
/// sees the same fields and the same length.
pub proof fn law_located_is_parsed(data: Seq<u8>, pos: nat)
    requires
        pos <= data.len(),
    ensures
        page::parsed(data.skip(pos as int)) is Ok <==> (located(data, pos) matches Located::Page {
            head,
            next,
        } && head.version == 0),
        page::parsed(data.skip(pos as int)) matches Ok((p, used)) ==> (located(
            data,
            pos,
        ) matches Located::Page { head, next } && next == pos + used && head.flags == p.flags
            && head.granule == p.granule_position && head.serial == p.serial && head.seq_no
            == p.seq_no && head.lacing == p.lacing),
{
    reveal(page::parsed);
}

/// Borrowed view of one structurally accepted page.
struct RawPage<'a> {
    offset: u64,
    version: u8,
    flags: u8,
    granule: i64,
    serial: u32,
    seq_no: u32,
    lacing: &'a [u8],
}

impl<'a> View for RawPage<'a> {
    type V = HeadView;

    closed spec fn view(&self) -> HeadView {
        HeadView {
            offset: self.offset as nat,
            version: self.version,
            flags: self.flags,
            granule: self.granule,
            serial: self.serial,
            seq_no: self.seq_no,
            lacing: self.lacing@,
        }
    }
}

impl<'a> RawPage<'a> {
    fn is_continued(&self) -> (r: bool)
        ensures
            r == self@.continued(),
    {
        self.flags & flags::CONTINUED != 0
    }

    fn is_bos(&self) -> (r: bool)
        ensures
            r == self@.bos(),
    {
        self.flags & flags::FIRST_PAGE != 0
    }

    fn is_eos(&self) -> (r: bool)
        ensures
            r == self@.eos(),
    {
        self.flags & flags::LAST_PAGE != 0
    }

    /// Number of packets that finish on this page.
    fn completed_packets(&self) -> (n: usize)
        ensures
            n == self@.ended(),
    {
        let mut n: usize = 0;
        let mut i: usize = 0;
        while i < self.lacing.len()
            invariant
                i <= self.lacing@.len(),
                n <= i,
                n == page::packets_ended(self.lacing@.take(i as int)),
            decreases self.lacing@.len() - i,
        {
            assert(self.lacing@.take(i + 1).drop_last() =~= self.lacing@.take(i as int));
            if self.lacing[i] < 255 {
                n += 1;
            }
            i += 1;
        }
        assert(self.lacing@.take(i as int) =~= self.lacing@);
        n
    }

    /// Whether a packet stays open across the end of the page.
    fn ends_open(&self) -> (r: bool)
        ensures
            r == self@.open(),
    {
        let n: usize = self.lacing.len();
        n > 0 && self.lacing[n - 1] == 255
    }
}

/// What stands at one position of the input.
enum PageAt<'a> {
    Found { page: RawPage<'a>, next: usize },
    NoCapture,
    Truncated { need: usize, have: usize },
    BadCrc { claimed_serial: u32, computed: u32, stored: u32, len: usize },
}

impl<'a> View for PageAt<'a> {
    type V = Located;

    closed spec fn view(&self) -> Located {
        match self {
            PageAt::Found { page, next } => Located::Page { head: page@, next: *next as nat },
            PageAt::NoCapture => Located::NoCapture,
            PageAt::Truncated { need, have } => Located::Truncated {
                need: *need as nat,
                have: *have as nat,
            },
            PageAt::BadCrc { claimed_serial, computed, stored, len } => Located::BadCrc {
                claimed_serial: *claimed_serial,
                computed: *computed,
                stored: *stored,
                len: *len as nat,
            },
        }
    }
}

/// Reads the page header at `pos`.
fn page_at<'a>(data: &'a [u8], pos: usize) -> (r: PageAt<'a>)
    requires
        pos <= data@.len(),
    ensures
        r@ == located(data@, pos as nat),
        r@ matches Located::Page { head, next } ==> pos + 27 <= next <= data@.len(),
{
    let rest = vstd::slice::slice_subrange(data, pos, data.len());
    assert(rest@ =~= data@.skip(pos as int));
    let have: usize = rest.len();
    proof {
        if have >= 4 {
            assert(rest@.subrange(0, 4) =~= rest@.take(4));
        }
    }
    if !matches_at(rest, 0, &page::CAPTURE_PATTERN) {
        return PageAt::NoCapture;
    }
    if have < 27 {
        return PageAt::Truncated { need: 27, have };
    }
    let n_segs: usize = rest[26] as usize;
    let header_len: usize = 27 + n_segs;
    if have < header_len {
        return PageAt::Truncated { need: header_len, have };
    }
    let lacing = vstd::slice::slice_subrange(rest, 27, header_len);
    proof {
        page::lemma_body_len_bound(lacing@);
    }
    let total: usize = header_len + lacing_sum(lacing);
    if have < total {
        return PageAt::Truncated { need: total, have };
    }
    let whole = vstd::slice::slice_subrange(rest, 0, total);
    assert(whole@ =~= rest@.take(total as int));
    let stored: u32 = read_u32_le(whole, crc::CRC_FIELD_OFFSET);
    let computed: u32 = match compute_page_checksum(whole) {
        Some(c) => c,
        None => 0,
    };
    if computed != stored {
        return PageAt::BadCrc {
            claimed_serial: read_u32_le(rest, 14),
            computed,
            stored,
            len: total,
        };
    }
    PageAt::Found {
        page: RawPage {
            offset: pos as u64,
            version: rest[4],
            flags: rest[5],
            granule: read_i64_le(rest, 6),
            serial: read_u32_le(rest, 14),
            seq_no: read_u32_le(rest, 18),
            lacing,
        },
        next: pos + total,
    }
}

/// Scans forward from `from` for the next position of a complete page with a
/// matching checksum.
fn find_next_valid_page(data: &[u8], from: usize) -> (r: Option<usize>)
    requires
        from <= data@.len(),
    ensures
        match r {
            Some(i) => next_valid(data@, from as nat) == Some(i as nat) && from <= i < data@.len(),
            None => next_valid(data@, from as nat) is None,
        },
{
    let mut i: usize = from;
    while i < data.len()
        invariant
            from <= i <= data@.len(),
            next_valid(data@, from as nat) == next_valid(data@, i as nat),
        decreases data@.len() - i,
    {
        match page_at(data, i) {
            PageAt::Found { page, next } => {
                return Some(i);
            },
            _ => {
                i += 1;
            },
        }
    }
    None
}

// ---------------------------------------------------------------------------
// Checking pages
// ---------------------------------------------------------------------------
/// What is known of one logical bitstream while the file is walked.
#[derive(Clone, Copy)]
pub struct StreamModel {
    /// Sequence number of the last accepted page.
    pub last_seq: u32,
    /// Granule position of the last packet-completing page.
    pub last_granule: Option<i64>,
    /// The last accepted page left a packet open.
    pub open_packet: bool,
    /// An EOS page was accepted.
    pub eos: bool,
    /// A page behind the EOS page was already reported.
    pub after_eos_reported: bool,
    /// A page that claimed this serial was skipped, so what the next page has
    /// to continue is unknown.
    pub tainted: bool,
}

/// The model of a bitstream before its first page has been looked at.
pub open spec fn fresh_model(seq_no: u32) -> StreamModel {
    StreamModel {
        last_seq: seq_no,
        last_granule: None,
        open_packet: false,
        eos: false,
        after_eos_reported: false,
        tainted: false,
    }
}

/// The model once page `p` has been taken over from model `m`: the page's
/// granule position counts where packets finish on it and it is not -1.
pub open spec fn model_after(m: StreamModel, p: HeadView) -> StreamModel {
    StreamModel {
        last_seq: p.seq_no,
        last_granule: if p.ended() > 0 && p.granule != -1 {
            Some(p.granule)
        } else {
            m.last_granule
        },
        open_packet: p.open(),
        eos: m.eos || p.eos(),
        after_eos_reported: m.after_eos_reported,
        tainted: false,
    }
}

/// The state of the walk: the report so far, the models of the current link's
/// bitstreams, the serials of earlier links, and whether the current link has
/// data pages.
#[verifier::ext_equal]
pub struct Walk {
    pub report: ReportView,
    pub live: Map<u32, StreamModel>,
    pub finished: Set<u32>,
    pub link_has_data: bool,
}

/// One issue where `cond` holds, none where it does not.
pub open spec fn when(cond: bool, issue: IssueView) -> Seq<IssueView> {
    if cond {
        seq![issue]
    } else {
        Seq::empty()
    }
}

/// Distance from sequence number `from` forward to `to`, around the 32-bit
/// circle.
pub open spec fn seq_distance(from: u32, to: u32) -> int {
    (to - from) % 0x1_0000_0000
}

/// An issue tied to page `p`, the accepted page number `index`.
pub open spec fn page_issue(index: nat, p: HeadView, rule: Rule, detail: Seq<char>) -> IssueView {
    IssueView {
        rule,
        severity: rule.severity_of(),
        byte_offset: p.offset as u64,
        page_index: Some(index as u64),
        serial: Some(p.serial),
        detail,
    }
}

/// An issue tied to a place but to no accepted page.
pub open spec fn place_issue(
    offset: nat,
    rule: Rule,
    serial: Option<u32>,
    detail: Seq<char>,
) -> IssueView {
    IssueView {
        rule,
        severity: rule.severity_of(),
        byte_offset: offset as u64,
        page_index: None,
        serial,
        detail,
    }
}

/// The granule and EOS rules, for a page whose predecessor had granule
/// position `previous`.
pub open spec fn tail_issues(index: nat, p: HeadView, previous: Option<i64>) -> Seq<IssueView> {
    when(
        p.lacing.len() > 0 && p.ended() == 0 && p.granule != -1,
        page_issue(
            index,
            p,
            Rule::SpuriousGranule,
            "granule_position "@ + text::signed_decimal(p.granule as int)
                + " on a page where no packet finishes (must be -1)"@,
        ),
    ) + when(
        p.ended() > 0 && p.granule == -1,
        page_issue(
            index,
            p,
            Rule::MissingGranule,
            "granule_position -1 on a page where "@ + text::decimal(p.ended())
                + " packet(s) finish"@,
        ),
    ) + when(
        p.ended() > 0 && p.granule != -1 && previous is Some && p.granule < previous->Some_0,
        page_issue(
            index,
            p,
            Rule::GranuleRegression,
            "granule_position "@ + text::signed_decimal(p.granule as int)
                + " below the bitstream's previous "@ + text::signed_decimal(
                previous->Some_0 as int,
            ),
        ),
    ) + when(
        p.eos() && p.open(),
        page_issue(
            index,
            p,
            Rule::EosMidPacket,
            "EOS page ends on a 255 lacing value, leaving a packet open forever"@,
        ),
    )
}

/// The sequence rule: the only legal successor of a sequence number is the next
/// one.
pub open spec fn hole_issue(index: nat, p: HeadView, last_seq: u32) -> IssueView {
    let gap = 0 < seq_distance(last_seq, p.seq_no) < 0x8000_0000;
    page_issue(
        index,
        p,
        if gap {
            Rule::SequenceGap
        } else {
            Rule::SequenceRegression
        },
        "page_sequence_number "@ + text::decimal(p.seq_no as nat) + " "@ + (if gap {
            "jumped"@
        } else {
            "regressed"@
        }) + " (expected "@ + text::decimal(((last_seq + 1) % 0x1_0000_0000) as nat) + ")"@,
    )
}

impl Walk {
    /// The walk before the first page.
    pub open spec fn start() -> Walk {
        Walk {
            report: ReportView::empty(),
            live: Map::empty(),
            finished: Set::empty(),
            link_has_data: false,
        }
    }

    /// Every bitstream of the current link has ended.
    pub open spec fn all_closed(self) -> bool {
        forall|s: u32| #[trigger] self.live.contains_key(s) ==> self.live[s].eos
    }

    /// BOS page `p` belongs to a serial that is still live.
    pub open spec fn duplicate(self, p: HeadView) -> bool {
        self.live.contains_key(p.serial) && !self.live[p.serial].eos
    }

    /// BOS page `p` opens a new chain link.
    pub open spec fn opens_link(self, p: HeadView) -> bool {
        !self.duplicate(p) && self.link_has_data && self.all_closed()
    }

    /// What is wrong with BOS page `p`.
    pub open spec fn bos_issues(self, p: HeadView) -> Seq<IssueView> {
        let n = self.report.pages;
        when(
            p.continued(),
            page_issue(
                n,
                p,
                Rule::ContinuedBos,
                "BOS page carries the continued-packet flag"@,
            ),
        ) + when(
            p.seq_no != 0,
            page_issue(
                n,
                p,
                Rule::SequenceStart,
                "first page of the bitstream has sequence number "@ + text::decimal(
                    p.seq_no as nat,
                ),
            ),
        ) + when(
            self.duplicate(p),
            page_issue(
                n,
                p,
                Rule::DuplicateBos,
                "second BOS page for a serial that is still live"@,
            ),
        ) + when(
            !self.duplicate(p) && (self.finished.contains(p.serial) || self.live.contains_key(
                p.serial,
            )),
            page_issue(
                n,
                p,
                Rule::SerialReuse,
                "BOS page reuses the serial of a logical bitstream that already ended"@,
            ),
        ) + when(
            !self.duplicate(p) && self.link_has_data && !self.all_closed(),
            page_issue(
                n,
                p,
                Rule::BosNotContiguous,
                "new bitstream's BOS page arrived after the link's data pages began, while other bitstreams of the link are still open"@,
            ),
        ) + tail_issues(n, p, None)
    }

    /// What is wrong with data page `p`.
    pub open spec fn data_issues(self, p: HeadView) -> Seq<IssueView> {
        let n = self.report.pages;
        if !self.live.contains_key(p.serial) {
            seq![
                page_issue(
                    n,
                    p,
                    Rule::MissingBos,
                    "data page for a serial that never had a BOS page"@,
                ),
            ] + tail_issues(n, p, None)
        } else {
            let m = self.live[p.serial];
            if m.eos {
                when(
                    !m.after_eos_reported,
                    page_issue(
                        n,
                        p,
                        Rule::PageAfterEos,
                        "page for a logical bitstream after its EOS page"@,
                    ),
                )
            } else if m.tainted {
                Seq::empty()
            } else if seq_distance(m.last_seq, p.seq_no) != 1 {
                seq![hole_issue(n, p, m.last_seq)]
            } else {
                when(
                    p.continued() && !m.open_packet,
                    page_issue(
                        n,
                        p,
                        Rule::ContinuedWithoutPartial,
                        "continued flag set but the previous page ended with a completed packet"@,
                    ),
                ) + when(
                    !p.continued() && m.open_packet,
                    page_issue(
                        n,
                        p,
                        Rule::PartialNotContinued,
                        "previous page ended mid-packet but the continued flag is unset"@,
                    ),
                ) + tail_issues(n, p, m.last_granule)
            }
        }
    }

    /// What is wrong with page `p`.
    pub open spec fn page_issues(self, p: HeadView) -> Seq<IssueView> {
        if p.bos() {
            self.bos_issues(p)
        } else {
            self.data_issues(p)
        }
    }

    /// Page `p` begins a bitstream: by its BOS mark, or because none was seen.
    pub open spec fn begins_stream(self, p: HeadView) -> bool {
        p.bos() || !self.live.contains_key(p.serial)
    }

    /// The model of page `p`'s bitstream behind the page.
    pub open spec fn stream_after(self, p: HeadView) -> StreamModel {
        if self.begins_stream(p) {
            model_after(fresh_model(p.seq_no), p)
        } else {
            let m = self.live[p.serial];
            if m.eos {
                StreamModel {
                    last_seq: p.seq_no,
                    open_packet: p.open(),
                    after_eos_reported: true,
                    ..m
                }
            } else {
                model_after(m, p)
            }
        }
    }

    /// The walk behind the accepted page `p`.
    pub open spec fn after_page(self, p: HeadView) -> Walk {
        let link = p.bos() && self.opens_link(p);
        let counted = ReportView {
            pages: self.report.pages + 1,
            streams: if self.begins_stream(p) && self.report.streams < u32::MAX {
                (self.report.streams + 1) as u32
            } else {
                self.report.streams
            },
            links: if self.report.pages == 0 {
                1
            } else if link && self.report.links < u32::MAX {
                (self.report.links + 1) as u32
            } else {
                self.report.links
            },
            ..self.report
        };
        Walk {
            report: counted.add(self.page_issues(p)),
            live: (if link {
                Map::empty()
            } else {
                self.live
            }).insert(p.serial, self.stream_after(p)),
            finished: if link {
                self.finished.union(self.live.dom())
            } else {
                self.finished
            },
            link_has_data: if p.bos() {
                self.link_has_data && !link
            } else {
                true
            },
        }
    }

    /// The bitstream `serial` can no longer be expected to continue.
    pub open spec fn taint(self, serial: u32) -> Walk {
        if self.live.contains_key(serial) {
            Walk {
                live: self.live.insert(
                    serial,
                    StreamModel { tainted: true, ..self.live[serial] },
                ),
                ..self
            }
        } else {
            self
        }
    }

    /// The walk with one issue added that is tied to no page.
    pub open spec fn note(self, issue: IssueView) -> Walk {
        Walk { report: self.report.add(seq![issue]), ..self }
    }
}

/// The walk behind what stands at `pos`, and the position to go on from.
#[verifier::opaque]
pub open spec fn step(data: Seq<u8>, pos: nat, w: Walk) -> (Walk, nat) {
    let resume = match next_valid(data, pos + 1) {
        Some(n) => n,
        None => data.len(),
    };
    match located(data, pos) {
        Located::NoCapture => {
            let skipped = (resume - pos) as nat;
            let counted = Walk {
                report: ReportView { junk_bytes: w.report.junk_bytes + skipped, ..w.report },
                ..w
            };
            (
                counted.note(
                    place_issue(
                        pos,
                        Rule::CapturePattern,
                        None,
                        text::decimal(skipped)
                            + " byte(s) without an 'OggS' capture pattern before "@ + (
                        if next_valid(data, pos + 1) is Some {
                            "the next valid page"@
                        } else {
                            "end of input"@
                        }),
                    ),
                ),
                resume,
            )
        },
        Located::Truncated { need, have } => (
            w.note(
                place_issue(
                    pos,
                    Rule::Truncated,
                    None,
                    "input ends inside a page: header declares "@ + text::decimal(need)
                        + " byte(s), "@ + text::decimal(have) + " remain"@,
                ),
            ),
            resume,
        ),
        Located::BadCrc { claimed_serial, computed, stored, len } => (
            w.note(
                place_issue(
                    pos,
                    Rule::CrcMismatch,
                    Some(claimed_serial),
                    "page checksum "@ + text::hex_u32(stored) + " does not match computed "@
                        + text::hex_u32(computed) + " over "@ + text::decimal(len)
                        + " byte(s)"@,
                ),
            ).taint(claimed_serial),
            resume,
        ),
        Located::Page { head, next } => if head.version != 0 {
            (
                w.note(
                    page_issue(
                        w.report.pages,
                        head,
                        Rule::Version,
                        "stream_structure_version "@ + text::decimal(head.version as nat)
                            + " (only 0 is specified)"@,
                    ),
                ).taint(head.serial),
                next,
            )
        } else {
            (w.after_page(head), next)
        },
    }
}

/// The walk from `pos` to the end of the input.
pub open spec fn walked(data: Seq<u8>, pos: nat, w: Walk) -> Walk
    decreases data.len() - pos,
{
    if pos >= data.len() {
        w
    } else {
        let (after, next) = step(data, pos, w);
        if pos < next <= data.len() {
            walked(data, next, after)
        } else {
            after
        }
    }
}

/// Strictly ascending.
pub open spec fn strictly_ascending(s: Seq<u32>) -> bool {
    forall|i: int, j: int| 0 <= i < j < s.len() ==> s[i] < s[j]
}

/// The elements of a finite set in ascending order.
pub open spec fn in_order(set: Set<u32>) -> Seq<u32> {
    choose|s: Seq<u32>| strictly_ascending(s) && s.to_set() == set
}

/// The serials of the bitstreams that were never closed.
pub open spec fn open_serials(w: Walk) -> Set<u32> {
    w.live.dom().filter(|s: u32| !w.live[s].eos)
}

/// The issue that the bitstream `serial` was never closed, at the end of `n`
/// bytes of input.
pub open spec fn missing_eos(n: nat, serial: u32) -> IssueView {
    place_issue(
        n,
        Rule::MissingEos,
        Some(serial),
        "logical bitstream was never closed with an EOS page"@,
    )
}

/// The report of the whole input.
pub open spec fn validated(data: Seq<u8>) -> ReportView {
    let w = walked(data, 0, Walk::start());
    let empty = when(
        data.len() == 0,
        place_issue(
            0,
            Rule::Truncated,
            None,
            "empty input: a physical bitstream carries at least one page"@,
        ),
    );
    let open = in_order(open_serials(w)).map_values(|s: u32| missing_eos(data.len(), s));
    w.report.add(empty).add(open)
}

/// There is only one ascending order.
proof fn lemma_order_unique(a: Seq<u32>, b: Seq<u32>)
    requires
        strictly_ascending(a),
        strictly_ascending(b),
        a.to_set() == b.to_set(),
    ensures
        a == b,
    decreases a.len(),
{
    if a.len() == 0 {
        if b.len() > 0 {
            assert(b.to_set().contains(b[0]));
            assert(a.to_set().contains(b[0]));
        }
        assert(a =~= b);
    } else {
        assert(a.to_set().contains(a.last()));
        assert(b.to_set().contains(a.last()));
        assert(b.to_set().contains(b.last()));
        assert(a.to_set().contains(b.last()));
        let i = choose|i: int| 0 <= i < b.len() && b[i] == a.last();
        let j = choose|j: int| 0 <= j < a.len() && a[j] == b.last();
        assert(a.last() == b.last());
        let (x, y) = (a.drop_last(), b.drop_last());
        assert forall|k: u32| x.to_set().contains(k) == y.to_set().contains(k) by {
            if x.to_set().contains(k) {
                let n = choose|n: int| 0 <= n < x.len() && x[n] == k;
                assert(a[n] == k);
                assert(a.to_set().contains(k));
                let m = choose|m: int| 0 <= m < b.len() && b[m] == k;
                assert(y[m] == k);
            }
            if y.to_set().contains(k) {
                let n = choose|n: int| 0 <= n < y.len() && y[n] == k;
                assert(b[n] == k);
                assert(b.to_set().contains(k));
                let m = choose|m: int| 0 <= m < a.len() && a[m] == k;
                assert(x[m] == k);
            }
        }
        assert(x.to_set() =~= y.to_set());
        lemma_order_unique(x, y);
        assert(a =~= x.push(a.last()));
        assert(b =~= y.push(b.last()));
    }
}

/// An ascending sequence is its elements in order.
pub proof fn lemma_in_order(s: Seq<u32>)
    requires
        strictly_ascending(s),
    ensures
        in_order(s.to_set()) == s,
{
    lemma_order_unique(in_order(s.to_set()), s);
}

/// The walk in progress.
struct Walker {
    report: ConformanceReport,
    live: SerialMap<StreamModel>,
    finished: SerialMap<bool>,
    link_has_data: bool,
}

impl View for Walker {
    type V = Walk;

    closed spec fn view(&self) -> Walk {
        Walk {
            report: self.report@,
            live: self.live@,
            finished: self.finished@.dom(),
            link_has_data: self.link_has_data,
        }
    }
}

/// The detail text of a number between two pieces of text.
fn detail_of(before: &str, n: u64, after: &str) -> (r: String)
    ensures
        r@ == before@ + text::decimal(n as nat) + after@,
{
    let mut out = owned(before);
    push_decimal(&mut out, n);
    out.append(after);
    out
}

/// The detail text of a signed number between two pieces of text.
fn detail_of_signed(before: &str, n: i64, after: &str) -> (r: String)
    ensures
        r@ == before@ + text::signed_decimal(n as int) + after@,
{
    let mut out = owned(before);
    push_signed(&mut out, n);
    out.append(after);
    out
}

impl Walker {
    spec fn wf(&self) -> bool {
        &&& self.live.wf()
        &&& self.finished.wf()
        &&& self.report@.capped()
    }

    /// Adds an issue tied to an accepted page.
    fn page_issue(&mut self, page: &RawPage<'_>, index: u64, rule: Rule, detail: String)
        requires
            old(self).wf(),
            old(self)@.report.suppressed_issues < u64::MAX,
        ensures
            final(self).wf(),
            final(self)@ == old(self)@.note(page_issue(index as nat, page@, rule, detail@)),
            final(self)@.report.total() == old(self)@.report.total() + 1,
            final(self).live == old(self).live,
            final(self).finished == old(self).finished,
    {
        let issue = Issue {
            rule,
            severity: rule.severity(),
            byte_offset: page.offset,
            page_index: Some(index),
            serial: Some(page.serial),
            detail,
        };
        assert(issue@ =~= page_issue(index as nat, page@, rule, detail@));
        self.report.push(issue);
    }

    /// Granule and EOS checks, and the model behind the page.
    fn finish_page_checks(
        &mut self,
        page: &RawPage<'_>,
        model: StreamModel,
        index: u64,
    ) -> (r: StreamModel)
        requires
            old(self).wf(),
            old(self)@.report.suppressed_issues + 4 <= u64::MAX,
        ensures
            final(self).wf(),
            final(self)@ == (Walk {
                report: old(self)@.report.add(
                    tail_issues(index as nat, page@, model.last_granule),
                ),
                ..old(self)@
            }),
            final(self).live == old(self).live,
            final(self).finished == old(self).finished,
            final(self)@.report.capped(),
            r == model_after(model, page@),
    {
        let ghost start = self@.report;
        let ghost mut found: Seq<IssueView> = Seq::empty();
        proof {
            law_add(start, found, found);
        }
        let completed: usize = page.completed_packets();
        let mut after = model;
        after.last_seq = page.seq_no;
        after.tainted = false;
        if page.lacing.len() > 0 && completed == 0 && page.granule != -1 {
            let detail = detail_of_signed(
                "granule_position ",
                page.granule,
                " on a page where no packet finishes (must be -1)",
            );
            self.page_issue(page, index, Rule::SpuriousGranule, detail);
            proof {
                let i = page_issue(index as nat, page@, Rule::SpuriousGranule, detail@);
                law_add(start, found, seq![i]);
                found = found + seq![i];
            }
        } else if completed > 0 && page.granule == -1 {
            let detail = detail_of(
                "granule_position -1 on a page where ",
                completed as u64,
                " packet(s) finish",
            );
            self.page_issue(page, index, Rule::MissingGranule, detail);
            proof {
                let i = page_issue(index as nat, page@, Rule::MissingGranule, detail@);
                law_add(start, found, seq![i]);
                found = found + seq![i];
            }
        }
        proof {
            if page@.ended() > 0 {
                assert(page@.lacing.len() > 0);
            }
        }
        if completed > 0 && page.granule != -1 {
            if let Some(previous) = model.last_granule {
                if page.granule < previous {
                    let mut detail = detail_of_signed(
                        "granule_position ",
                        page.granule,
                        " below the bitstream's previous ",
                    );
                    push_signed(&mut detail, previous);
                    self.page_issue(page, index, Rule::GranuleRegression, detail);
                    proof {
                        let i = page_issue(index as nat, page@, Rule::GranuleRegression, detail@);
                        law_add(start, found, seq![i]);
                        found = found + seq![i];
                    }
                }
            }
            after.last_granule = Some(page.granule);
        }
        after.open_packet = page.ends_open();
        if page.is_eos() {
            after.eos = true;
            if after.open_packet {
                let detail = owned(
                    "EOS page ends on a 255 lacing value, leaving a packet open forever",
                );
                self.page_issue(page, index, Rule::EosMidPacket, detail);
                proof {
                    let i = page_issue(index as nat, page@, Rule::EosMidPacket, detail@);
                    law_add(start, found, seq![i]);
                    found = found + seq![i];
                }
            }
        }
        proof {
            assert(found =~= tail_issues(index as nat, page@, model.last_granule));
            law_add(start, found, Seq::empty());
        }
        after
    }

    /// Whether every bitstream of the current link has ended.
    fn all_closed(&self) -> (r: bool)
        requires
            self.wf(),
        ensures
            r == self@.all_closed(),
    {
        proof {
            self.live.lemma_keys();
        }
        let mut i: usize = 0;
        while i < self.live.len()
            invariant
                self.wf(),
                i <= self.live.keys().len(),
                forall|k: int|
                    0 <= k < i ==> self.live@[#[trigger] self.live.keys()[k]].eos,
            decreases self.live.keys().len() - i,
        {
            let (serial, model) = self.live.at(i);
            if !model.eos {
                assert(self@.live.contains_key(serial));
                return false;
            }
            i += 1;
        }
        proof {
            assert forall|s: u32| #[trigger] self@.live.contains_key(s) implies self@.live[s].eos by {
                self.live.lemma_keys();
                assert(self.live.keys().contains(s));
                let k = choose|k: int| 0 <= k < self.live.keys().len() && self.live.keys()[k] == s;
                assert(self.live@[self.live.keys()[k]].eos);
            }
        }
        true
    }

    /// Closes the current link: its serials are finished, and a new link has
    /// no bitstreams and no data yet.
    fn retire_link(&mut self)
        requires
            old(self).wf(),
        ensures
            final(self).wf(),
            final(self)@ == (Walk {
                live: Map::empty(),
                finished: old(self)@.finished.union(old(self)@.live.dom()),
                link_has_data: false,
                ..old(self)@
            }),
    {
        let ghost before = self@;
        let ghost keys = self.live.keys();
        proof {
            self.live.lemma_keys();
        }
        let mut i: usize = 0;
        assert(self.finished@.dom() =~= before.finished.union(keys.take(0).to_set()));
        while i < self.live.len()
            invariant
                self.wf(),
                self.live@ == before.live,
                self.live.keys() == keys,
                self.report@ == before.report,
                i <= keys.len(),
                self.finished@.dom() == before.finished.union(keys.take(i as int).to_set()),
            decreases keys.len() - i,
        {
            let (serial, model) = self.live.at(i);
            self.finished.insert(serial, true);
            proof {
                let (a, b) = (keys.take(i as int), keys.take(i + 1));
                assert(b =~= a.push(serial));
                assert forall|k: u32| b.to_set().contains(k) == (a.to_set().contains(k) || k
                    == serial) by {
                    if a.to_set().contains(k) {
                        let n = choose|n: int| 0 <= n < a.len() && a[n] == k;
                        assert(b[n] == k);
                    }
                    assert(b[i as int] == serial);
                }
                assert(self.finished@.dom() =~= before.finished.union(b.to_set()));
            }
            i += 1;
        }
        proof {
            self.live.lemma_keys();
            assert(keys.take(i as int) =~= keys);
        }
        self.live.clear();
        self.link_has_data = false;
        assert(self@ =~= (Walk {
            live: Map::empty(),
            finished: before.finished.union(before.live.dom()),
            link_has_data: false,
            ..before
        }));
    }

    /// The rules for a BOS page.
    #[verifier::rlimit(60)]
    #[verifier::spinoff_prover]
    fn check_bos(&mut self, page: &RawPage<'_>, index: u64)
        requires
            old(self).wf(),
            page@.bos(),
            old(self)@.report.pages == index,
            old(self)@.report.suppressed_issues + 9 <= u64::MAX,
        ensures
            final(self).wf(),
            ({
                let w = old(self)@;
                let link = w.opens_link(page@);
                final(self)@ == (Walk {
                    report: ReportView {
                        streams: if w.report.streams < u32::MAX {
                            (w.report.streams + 1) as u32
                        } else {
                            w.report.streams
                        },
                        links: if link && w.report.links < u32::MAX {
                            (w.report.links + 1) as u32
                        } else {
                            w.report.links
                        },
                        ..w.report.add(w.bos_issues(page@))
                    },
                    ..w.after_page(page@)
                })
            }),
    {
        let ghost w = self@;
        let ghost start = self@.report;
        let ghost mut found: Seq<IssueView> = Seq::empty();
        proof {
            law_add(start, found, found);
        }
        if page.is_continued() {
            let detail = owned("BOS page carries the continued-packet flag");
            self.page_issue(page, index, Rule::ContinuedBos, detail);
            proof {
                let i = page_issue(index as nat, page@, Rule::ContinuedBos, detail@);
                law_add(start, found, seq![i]);
                found = found + seq![i];
            }
        }
        if page.seq_no != 0 {
            let detail = detail_of(
                "first page of the bitstream has sequence number ",
                page.seq_no as u64,
                "",
            );
            proof {
                reveal_strlit("");
                assert(detail@ =~= "first page of the bitstream has sequence number "@
                    + text::decimal(page.seq_no as nat));
            }
            self.page_issue(page, index, Rule::SequenceStart, detail);
            proof {
                let i = page_issue(index as nat, page@, Rule::SequenceStart, detail@);
                law_add(start, found, seq![i]);
                found = found + seq![i];
            }
        }
        let known: Option<bool> = match self.live.get(page.serial) {
            Some(m) => Some(m.eos),
            None => None,
        };
        let mut link: bool = false;
        if let Some(false) = known {
            let detail = owned("second BOS page for a serial that is still live");
            self.page_issue(page, index, Rule::DuplicateBos, detail);
            proof {
                let i = page_issue(index as nat, page@, Rule::DuplicateBos, detail@);
                law_add(start, found, seq![i]);
                found = found + seq![i];
            }
        } else {
            if known.is_some() || self.finished.contains(page.serial) {
                let detail = owned(
                    "BOS page reuses the serial of a logical bitstream that already ended",
                );
                self.page_issue(page, index, Rule::SerialReuse, detail);
                proof {
                    let i = page_issue(index as nat, page@, Rule::SerialReuse, detail@);
                    law_add(start, found, seq![i]);
                    found = found + seq![i];
                }
            }
            if self.link_has_data {
                if self.all_closed() {
                    link = true;
                } else {
                    let detail = owned(
                        "new bitstream's BOS page arrived after the link's data pages began, while other bitstreams of the link are still open",
                    );
                    self.page_issue(page, index, Rule::BosNotContiguous, detail);
                    proof {
                        let i = page_issue(index as nat, page@, Rule::BosNotContiguous, detail@);
                        law_add(start, found, seq![i]);
                        found = found + seq![i];
                    }
                }
            }
        }
        proof {
            assert(self@ =~= (Walk { report: start.add(found), ..w }));
            assert(link == w.opens_link(page@));
        }
        let fresh = StreamModel {
            last_seq: page.seq_no,
            last_granule: None,
            open_packet: false,
            eos: false,
            after_eos_reported: false,
            tainted: false,
        };
        let after = self.finish_page_checks(page, fresh, index);
        proof {
            law_add(start, found, tail_issues(index as nat, page@, None));
            assert(found + tail_issues(index as nat, page@, None) =~= w.bos_issues(page@));
        }
        if link {
            self.retire_link();
            self.report.links = self.report.links.saturating_add(1);
        }
        self.report.streams = self.report.streams.saturating_add(1);
        self.live.insert(page.serial, after);
    }

    /// The rules for a page that is not a BOS page.
    fn check_data(&mut self, page: &RawPage<'_>, index: u64)
        requires
            old(self).wf(),
            !page@.bos(),
            old(self)@.report.pages == index,
            old(self)@.report.suppressed_issues + 9 <= u64::MAX,
        ensures
            final(self).wf(),
            ({
                let w = old(self)@;
                final(self)@ == (Walk {
                    report: ReportView {
                        streams: if w.begins_stream(page@) && w.report.streams < u32::MAX {
                            (w.report.streams + 1) as u32
                        } else {
                            w.report.streams
                        },
                        ..w.report.add(w.data_issues(page@))
                    },
                    ..w.after_page(page@)
                })
            }),
    {
        let ghost w = self@;
        let ghost start = self@.report;
        let ghost n = index as nat;
        self.link_has_data = true;
        let model: StreamModel = match self.live.get(page.serial) {
            Some(m) => *m,
            None => {
                let detail = owned("data page for a serial that never had a BOS page");
                self.page_issue(page, index, Rule::MissingBos, detail);
                let fresh = StreamModel {
                    last_seq: page.seq_no,
                    last_granule: None,
                    open_packet: false,
                    eos: false,
                    after_eos_reported: false,
                    tainted: false,
                };
                let after = self.finish_page_checks(page, fresh, index);
                proof {
                    let first = seq![page_issue(n, page@, Rule::MissingBos, detail@)];
                    law_add(start, first, tail_issues(n, page@, None));
                }
                self.report.streams = self.report.streams.saturating_add(1);
                self.live.insert(page.serial, after);
                return;
            },
        };
        if model.eos {
            if !model.after_eos_reported {
                let detail = owned("page for a logical bitstream after its EOS page");
                self.page_issue(page, index, Rule::PageAfterEos, detail);
            }
            proof {
                law_add(start, Seq::empty(), Seq::empty());
            }
            let mut after = model;
            after.after_eos_reported = true;
            after.last_seq = page.seq_no;
            after.open_packet = page.ends_open();
            self.live.insert(page.serial, after);
            return;
        }
        let expected: u32 = model.last_seq.wrapping_add(1);
        let hole: bool = page.seq_no != expected;
        proof {
            lemma_seq_distance(model.last_seq, page.seq_no, expected);
            law_add(start, Seq::empty(), Seq::empty());
        }
        if model.tainted || hole {
            // What the page continues is unknown: only the model is renewed.
            if !model.tainted {
                let ahead: u32 = page.seq_no.wrapping_sub(model.last_seq);
                let gap: bool = 0 < ahead && ahead < 0x8000_0000;
                let mut detail = detail_of("page_sequence_number ", page.seq_no as u64, " ");
                if gap {
                    detail.append("jumped");
                } else {
                    detail.append("regressed");
                }
                detail.append(" (expected ");
                push_decimal(&mut detail, expected as u64);
                detail.append(")");
                self.page_issue(
                    page,
                    index,
                    if gap {
                        Rule::SequenceGap
                    } else {
                        Rule::SequenceRegression
                    },
                    detail,
                );
                proof {
                    assert(ahead == seq_distance(model.last_seq, page.seq_no));
                }
            }
            let mut after = model;
            after.tainted = false;
            after.last_seq = page.seq_no;
            if page.completed_packets() > 0 && page.granule != -1 {
                after.last_granule = Some(page.granule);
            }
            after.open_packet = page.ends_open();
            if page.is_eos() {
                after.eos = true;
            }
            self.live.insert(page.serial, after);
            return;
        }
        let ghost mut found: Seq<IssueView> = Seq::empty();
        let continued: bool = page.is_continued();
        if continued && !model.open_packet {
            let detail = owned(
                "continued flag set but the previous page ended with a completed packet",
            );
            self.page_issue(page, index, Rule::ContinuedWithoutPartial, detail);
            proof {
                found = seq![page_issue(n, page@, Rule::ContinuedWithoutPartial, detail@)];
            }
        } else if !continued && model.open_packet {
            let detail = owned("previous page ended mid-packet but the continued flag is unset");
            self.page_issue(page, index, Rule::PartialNotContinued, detail);
            proof {
                found = seq![page_issue(n, page@, Rule::PartialNotContinued, detail@)];
            }
        }
        let after = self.finish_page_checks(page, model, index);
        proof {
            law_add(start, found, tail_issues(n, page@, model.last_granule));
            assert(found + tail_issues(n, page@, model.last_granule) =~= w.data_issues(page@));
        }
        self.live.insert(page.serial, after);
    }

    /// Applies the rules to one accepted page.
    fn check_page(&mut self, page: &RawPage<'_>)
        requires
            old(self).wf(),
            old(self)@.report.pages < u64::MAX,
            old(self)@.report.suppressed_issues + 9 <= u64::MAX,
        ensures
            final(self).wf(),
            final(self)@ == old(self)@.after_page(page@),
    {
        let ghost w = self@;
        let index: u64 = self.report.pages;
        if page.is_bos() {
            self.check_bos(page, index);
        } else {
            self.check_data(page, index);
        }
        self.report.pages = index + 1;
        if index == 0 {
            self.report.links = 1;
        }
        assert(self@.report =~= w.after_page(page@).report);
    }
}

/// Distance around the circle, as the wrapping operations compute it.
proof fn lemma_seq_distance(from: u32, to: u32, next: u32)
    requires
        next == (if from == u32::MAX {
            0
        } else {
            from + 1
        }),
    ensures
        (to != next) == (seq_distance(from, to) != 1),
        next == (from + 1) % 0x1_0000_0000,
        seq_distance(from, to) == (if to >= from {
            to - from
        } else {
            to - from + 0x1_0000_0000
        }),
{
    let d = seq_distance(from, to);
}

/// A page adds few issues and at most one bitstream.
proof fn lemma_page_growth(w: Walk, p: HeadView)
    requires
        w.report.capped(),
        w.live.dom().finite(),
    ensures
        w.after_page(p).report.capped(),
        w.after_page(p).report.total() <= w.report.total() + 9,
        w.after_page(p).live.dom().finite(),
        w.after_page(p).live.len() <= w.live.len() + 1,
{
    let counted = ReportView {
        issues: w.report.issues,
        suppressed_issues: w.report.suppressed_issues,
        ..w.after_page(p).report
    };
    law_add(counted, w.page_issues(p), Seq::empty());
    assert(w.page_issues(p).len() <= 9);
}

/// Walks a complete physical bitstream and reports every violation of the
/// page-structure rules.
pub fn validate(data: &[u8]) -> (report: ConformanceReport)
    ensures
        report@ == validated(data@),
{
    let mut walker = Walker {
        report: ConformanceReport::default(),
        live: SerialMap::new(),
        finished: SerialMap::new(),
        link_has_data: false,
    };
    let n: usize = data.len();
    let mut pos: usize = 0;
    proof {
        assert(walker@ =~= Walk::start());
        assert(walker@.live.len() == 0);
    }
    while pos < n
        invariant
            n == data@.len(),
            pos <= n,
            walker.wf(),
            walked(data@, pos as nat, walker@) == walked(data@, 0, Walk::start()),
            walker.within(pos as nat),
        decreases n - pos,
    {
        pos = walker.advance(data, pos);
    }
    let ghost w = walker@;
    assert(w == walked(data@, 0, Walk::start()));
    proof {
        law_add(w.report, Seq::empty(), Seq::empty());
    }
    if n == 0 {
        let issue = Issue {
            rule: Rule::Truncated,
            severity: Rule::Truncated.severity(),
            byte_offset: 0,
            page_index: None,
            serial: None,
            detail: owned("empty input: a physical bitstream carries at least one page"),
        };
        walker.report.push(issue);
    }
    walker.report_open(n);
    walker.report
}

impl Walker {
    /// The counts cannot have outgrown `pos` bytes of input.
    spec fn within(&self, pos: nat) -> bool {
        &&& self@.live.dom().finite()
        &&& self@.report.total() + self@.live.len() <= pos
        &&& self@.report.pages <= pos
        &&& self@.report.junk_bytes <= pos
    }

    /// Takes in what stands at `pos` and returns the position to go on from.
    fn advance(&mut self, data: &[u8], pos: usize) -> (next: usize)
        requires
            old(self).wf(),
            old(self).within(pos as nat),
            pos < data@.len(),
        ensures
            final(self).wf(),
            final(self).within(next as nat),
            pos < next <= data@.len(),
            (final(self)@, next as nat) == step(data@, pos as nat, old(self)@),
    {
        reveal(step);
        let ghost w = self@;
        assert(data.len() == data@.len());
        match page_at(data, pos) {
            PageAt::Found { page, next } => {
                if page.version != 0 {
                    let detail = detail_of(
                        "stream_structure_version ",
                        page.version as u64,
                        " (only 0 is specified)",
                    );
                    let index: u64 = self.report.pages;
                    self.page_issue(&page, index, Rule::Version, detail);
                    self.taint(page.serial);
                } else {
                    self.check_page(&page);
                    proof {
                        lemma_page_growth(w, page@);
                    }
                }
                next
            },
            PageAt::NoCapture => self.junk(data, pos),
            PageAt::Truncated { need, have } => {
                let mut detail = detail_of(
                    "input ends inside a page: header declares ",
                    need as u64,
                    " byte(s), ",
                );
                push_decimal(&mut detail, have as u64);
                detail.append(" remain");
                self.place_issue(pos, Rule::Truncated, None, detail);
                resume_at(data, pos)
            },
            PageAt::BadCrc { claimed_serial, computed, stored, len } => {
                let mut detail = owned("page checksum ");
                push_hex_u32(&mut detail, stored);
                detail.append(" does not match computed ");
                push_hex_u32(&mut detail, computed);
                detail.append(" over ");
                push_decimal(&mut detail, len as u64);
                detail.append(" byte(s)");
                self.place_issue(pos, Rule::CrcMismatch, Some(claimed_serial), detail);
                self.taint(claimed_serial);
                resume_at(data, pos)
            },
        }
    }

    /// Adds an issue tied to a place but to no page.
    fn place_issue(&mut self, pos: usize, rule: Rule, serial: Option<u32>, detail: String)
        requires
            old(self).wf(),
            old(self)@.report.suppressed_issues < u64::MAX,
        ensures
            final(self).wf(),
            final(self)@ == old(self)@.note(place_issue(pos as nat, rule, serial, detail@)),
            final(self)@.report.total() == old(self)@.report.total() + 1,
    {
        let issue = Issue {
            rule,
            severity: rule.severity(),
            byte_offset: pos as u64,
            page_index: None,
            serial,
            detail,
        };
        assert(issue@ =~= place_issue(pos as nat, rule, serial, detail@));
        self.report.push(issue);
    }

    /// Reports the junk that begins at `pos`, up to the next valid page.
    fn junk(&mut self, data: &[u8], pos: usize) -> (next: usize)
        requires
            old(self).wf(),
            old(self).within(pos as nat),
            pos < data@.len(),
            located(data@, pos as nat) is NoCapture,
        ensures
            final(self).wf(),
            final(self).within(next as nat),
            pos < next <= data@.len(),
            (final(self)@, next as nat) == step(data@, pos as nat, old(self)@),
    {
        reveal(step);
        assert(data.len() == data@.len());
        let found: Option<usize> = find_next_valid_page(data, pos + 1);
        let end: usize = match found {
            Some(i) => i,
            None => data.len(),
        };
        let skipped: u64 = (end - pos) as u64;
        self.report.junk_bytes = self.report.junk_bytes + skipped;
        let mut detail = String::new();
        push_decimal(&mut detail, skipped);
        detail.append(" byte(s) without an 'OggS' capture pattern before ");
        if found.is_some() {
            detail.append("the next valid page");
        } else {
            detail.append("end of input");
        }
        assert(Seq::<char>::empty() + text::decimal(skipped as nat) =~= text::decimal(
            skipped as nat,
        ));
        self.place_issue(pos, Rule::CapturePattern, None, detail);
        end
    }
}

/// The position to go on from behind damage at `pos`: the next valid page, or
/// the end of the input.
fn resume_at(data: &[u8], pos: usize) -> (next: usize)
    requires
        pos < data@.len(),
    ensures
        pos < next <= data@.len(),
        next == (match next_valid(data@, (pos + 1) as nat) {
            Some(n) => n,
            None => data@.len(),
        }),
{
    assert(data.len() == data@.len());
    match find_next_valid_page(data, pos + 1) {
        Some(i) => i,
        None => data.len(),
    }
}

impl Walker {
    /// Marks the bitstream `serial`, if it is live, as one whose next page
    /// cannot be checked against the last.
    fn taint(&mut self, serial: u32)
        requires
            old(self).wf(),
        ensures
            final(self).wf(),
            final(self)@ == old(self)@.taint(serial),
            final(self)@.live.dom() == old(self)@.live.dom(),
    {
        let known: Option<StreamModel> = match self.live.get(serial) {
            Some(m) => Some(*m),
            None => None,
        };
        if let Some(m) = known {
            let mut after = m;
            after.tainted = true;
            self.live.insert(serial, after);
            assert(self@.live.dom() =~= old(self)@.live.dom());
        }
    }

    /// Reports the bitstreams that were never closed, in ascending order of
    /// their serials.
    fn report_open(&mut self, n: usize)
        requires
            old(self).wf(),
            old(self)@.report.total() + old(self)@.live.len() <= u64::MAX,
        ensures
            final(self)@.report == old(self)@.report.add(
                in_order(open_serials(old(self)@)).map_values(
                    |s: u32| missing_eos(n as nat, s),
                ),
            ),
    {
        let ghost w = self@;
        let ghost keys = self.live.keys();
        let ghost mut open: Seq<u32> = Seq::empty();
        let ghost as_issue = |s: u32| missing_eos(n as nat, s);
        proof {
            self.live.lemma_keys();
            law_add(w.report, Seq::empty(), Seq::empty());
            assert(open.map_values(as_issue) =~= Seq::<IssueView>::empty());
        }
        let mut i: usize = 0;
        while i < self.live.len()
            invariant
                self.wf(),
                self.live.keys() == keys,
                self.live@ == w.live,
                w.report.capped(),
                w.report.total() + keys.len() <= u64::MAX,
                i <= keys.len(),
                as_issue == (|s: u32| missing_eos(n as nat, s)),
                self.report@ == w.report.add(open.map_values(as_issue)),
                open.len() <= i,
                strictly_ascending(open),
                strictly_ascending(keys),
                forall|k: int|
                    0 <= k < open.len() ==> exists|j: int|
                        0 <= j < i && keys[j] == #[trigger] open[k],
                forall|s: u32| #[trigger]
                    open.to_set().contains(s) <==> (exists|j: int|
                        0 <= j < i && #[trigger] keys[j] == s) && !w.live[s].eos,
            decreases keys.len() - i,
        {
            let ghost before = open;
            let (serial, model) = self.live.at(i);
            if !model.eos {
                proof {
                    law_add(w.report, open.map_values(as_issue), seq![as_issue(serial)]);
                    open = open.push(serial);
                    assert(open.map_values(as_issue) =~= before.map_values(as_issue)
                        + seq![as_issue(serial)]);
                    assert forall|k: int| 0 <= k < open.len() implies exists|j: int|
                        0 <= j < i + 1 && keys[j] == #[trigger] open[k] by {
                        if k < before.len() {
                            let j = choose|j: int| 0 <= j < i && keys[j] == before[k];
                            assert(keys[j] == open[k]);
                        } else {
                            assert(keys[i as int] == open[k]);
                        }
                    }
                }
                let issue = Issue {
                    rule: Rule::MissingEos,
                    severity: Rule::MissingEos.severity(),
                    byte_offset: n as u64,
                    page_index: None,
                    serial: Some(serial),
                    detail: owned("logical bitstream was never closed with an EOS page"),
                };
                assert(issue@ =~= as_issue(serial));
                self.report.push(issue);
            }
            proof {
                assert forall|s: u32| #[trigger] open.to_set().contains(s) <==> (exists|j: int|
                    0 <= j < i + 1 && #[trigger] keys[j] == s) && !w.live[s].eos by {
                    if open.to_set().contains(s) {
                        let k = choose|k: int| 0 <= k < open.len() && open[k] == s;
                        if k < before.len() {
                            assert(before[k] == s);
                            assert(before.to_set().contains(s));
                            let j = choose|j: int| 0 <= j < i && keys[j] == s;
                            assert(keys[j] == s);
                        } else {
                            assert(keys[i as int] == s);
                        }
                    }
                    if (exists|j: int| 0 <= j < i + 1 && #[trigger] keys[j] == s)
                        && !w.live[s].eos {
                        let j = choose|j: int| 0 <= j < i + 1 && #[trigger] keys[j] == s;
                        if j < i {
                            assert(before.to_set().contains(s));
                            let k = choose|k: int| 0 <= k < before.len() && before[k] == s;
                            assert(open[k] == s);
                        } else {
                            assert(open.last() == s);
                        }
                    }
                }
            }
            i += 1;
        }
        proof {
            self.live.lemma_keys();
            assert(open.to_set() =~= open_serials(w)) by {
                assert forall|s: u32| open.to_set().contains(s) == open_serials(w).contains(s) by {
                    if w.live.contains_key(s) {
                        assert(keys.contains(s));
                        let j = choose|j: int| 0 <= j < keys.len() && keys[j] == s;
                        assert(keys[j] == s);
                    }
                }
            }
            lemma_in_order(open);
        }
    }
}

} // verus!
