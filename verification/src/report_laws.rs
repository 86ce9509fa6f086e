//! What a report says of the issues in it.
use crate::validate;
use crate::validate::{IssueView, Rule, Severity};
use vstd::prelude::*;

verus! {

/// Each issue is counted once, as an error or as a warning, wherever it stands.
pub proof fn law_counts(a: Seq<IssueView>, b: Seq<IssueView>, severity: Severity)
    ensures
        validate::count_of(a + b, severity) == validate::count_of(a, severity)
            + validate::count_of(b, severity),
        validate::count_of(a, Severity::Error) + validate::count_of(a, Severity::Warning)
            == a.len(),
        validate::count_of(a, severity) == a.filter(|i: IssueView| i.severity == severity).len(),
    decreases a.len() + b.len(),
{
    reveal(Seq::filter);
    if b.len() > 0 {
        assert((a + b).drop_last() =~= a + b.drop_last());
        law_counts(a, b.drop_last(), severity);
    } else {
        assert(a + b =~= a);
        if a.len() > 0 {
            law_counts(a.drop_last(), b, severity);
        }
    }
}

/// The issues of a rule are all those that violate it, in their order.
pub proof fn law_of_rule(a: Seq<IssueView>, rule: Rule)
    ensures
        validate::issues_of(a, rule) == a.filter(|i: IssueView| i.rule == rule),
    decreases a.len(),
{
    reveal(Seq::filter);
    if a.len() > 0 {
        law_of_rule(a.drop_last(), rule);
    }
}

/// The lines of issues stand one behind the other, each behind two spaces and
/// before an end of line.
pub proof fn law_lines(a: Seq<IssueView>, b: Seq<IssueView>, i: IssueView)
    ensures
        validate::lines_of(a + b) == validate::lines_of(a) + validate::lines_of(b),
        validate::lines_of(seq![i]) == seq![' ', ' '] + i.line() + seq!['\n'],
    decreases b.len(),
{
    reveal_strlit("  ");
    reveal_strlit("\n");
    if b.len() > 0 {
        assert((a + b).drop_last() =~= a + b.drop_last());
        law_lines(a, b.drop_last(), i);
        assert(validate::lines_of(a + b) =~= validate::lines_of(a) + validate::lines_of(b));
    } else {
        assert(a + b =~= a);
        assert(validate::lines_of(a + b) =~= validate::lines_of(a) + validate::lines_of(b));
    }
    let one = seq![i];
    assert(one.drop_last() =~= Seq::<IssueView>::empty());
    assert(validate::lines_of(one.drop_last()) =~= Seq::<char>::empty());
    assert(validate::lines_of(one) =~= seq![' ', ' '] + i.line() + seq!['\n']);
}

/// No two rules share a name.
pub proof fn law_names_apart(a: Rule, b: Rule)
    requires
        a.name_of() == b.name_of(),
    ensures
        a == b,
{
    reveal_strlit("capture-pattern");
    reveal_strlit("version");
    reveal_strlit("truncated");
    reveal_strlit("crc-mismatch");
    reveal_strlit("missing-bos");
    reveal_strlit("duplicate-bos");
    reveal_strlit("serial-reuse");
    reveal_strlit("bos-not-contiguous");
    reveal_strlit("missing-eos");
    reveal_strlit("page-after-eos");
    reveal_strlit("continued-bos");
    reveal_strlit("sequence-start");
    reveal_strlit("sequence-gap");
    reveal_strlit("sequence-regression");
    reveal_strlit("granule-regression");
    reveal_strlit("spurious-granule");
    reveal_strlit("missing-granule");
    reveal_strlit("continued-without-partial");
    reveal_strlit("partial-not-continued");
    reveal_strlit("eos-mid-packet");
    let (s, t) = (a.name_of(), b.name_of());
    assert(s.len() == t.len());
    assert(s[0] == t[0]);
    assert(s[8] == t[8] || s.len() < 9);
}

} // verus!
