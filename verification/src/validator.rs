//! Classifying parsed entries against an existence check and producing a
//! validation/repair report.
//!
//! The validator performs no I/O itself: the existence check is injected
//! as one boolean per entry, gathered by the caller in input order (or in
//! parallel and reassembled by original position — the report is keyed by
//! position, never by arrival order). This keeps the core deterministic
//! and testable with a fake check.

use crate::parser::Entry;
use crate::parser::EntryV;
use crate::parser::append_chars;
use crate::parser::entry_views;
use crate::parser::join_spec;
use crate::parser::lemma_join_spec_push;
use vstd::prelude::*;

verus! {

/// The per-entry validation result: the existence check either succeeded
/// or failed. There is no partial or unknown state.
#[derive(Clone, Copy, Debug, PartialEq, Eq, Structural)]
pub enum Outcome {
    /// The existence check succeeded for this entry.
    Valid,
    /// The existence check failed, or the entry's text is empty.
    Invalid,
}

/// What the validator is asked to produce: an inspect-only report, or the
/// same report plus the corrected, rejoined list string.
#[derive(Clone, Copy, Debug, PartialEq, Eq, Structural)]
pub enum Mode {
    /// Classify every entry and count the broken ones; compute no
    /// corrected string.
    Report,
    /// Additionally rejoin the entries classified valid, in original
    /// order, with the same delimiter used for splitting.
    Filter,
}

/// Aggregate result of one validation pass: every entry with its outcome,
/// in input order, the count of invalid outcomes, and — in Filter mode
/// only — the rejoined string of the valid entries. A report is built
/// fresh per invocation and never mutated afterwards.
#[derive(Debug, PartialEq, Eq)]
pub struct RepairReport {
    /// The validated entries, exactly as handed in, in input order.
    pub entries: Vec<Entry>,
    /// One outcome per entry, at the entry's position.
    pub outcomes: Vec<Outcome>,
    /// How many outcomes are `Invalid`.
    pub invalid_count: usize,
    /// In Filter mode, the valid entries rejoined with the delimiter; in
    /// Report mode, nothing.
    pub filtered: Option<Vec<char>>,
}

/// Mathematical model of a [`RepairReport`]: the ordered sequence of
/// (entry, outcome) pairs, the invalid count, and the optional corrected
/// string.
#[verifier::ext_equal]
pub struct ReportV {
    pub results: Seq<(EntryV, Outcome)>,
    pub invalid_count: nat,
    pub filtered: Option<Seq<char>>,
}

/// The (entry, outcome) pairs modeled by two parallel vectors.
pub open spec fn results_view(entries: Seq<Entry>, outcomes: Seq<Outcome>) -> Seq<(EntryV, Outcome)> {
    Seq::new(entries.len(), |i: int| (entries[i]@, outcomes[i]))
}

impl RepairReport {
    /// A report is well formed when it pairs every entry with exactly one
    /// outcome.
    pub open spec fn wf(&self) -> bool {
        self.outcomes@.len() == self.entries@.len()
    }
}

impl View for RepairReport {
    type V = ReportV;

    open spec fn view(&self) -> ReportV {
        ReportV {
            results: results_view(self.entries@, self.outcomes@),
            invalid_count: self.invalid_count as nat,
            filtered: match self.filtered {
                Some(f) => Some(f@),
                None => None,
            },
        }
    }
}

/// The classification rule: an empty text never exists, so it is always
/// invalid; otherwise the outcome of the existence check decides.
pub open spec fn classify(raw: Seq<char>, found: bool) -> Outcome {
    if raw.len() == 0 || !found {
        Outcome::Invalid
    } else {
        Outcome::Valid
    }
}

/// Every entry paired with its classification, in input order.
pub open spec fn results_of(entries: Seq<EntryV>, found: Seq<bool>) -> Seq<(EntryV, Outcome)> {
    Seq::new(entries.len(), |i: int| (entries[i], classify(entries[i].raw, found[i])))
}

/// How many results carry an `Invalid` outcome.
pub open spec fn count_invalid(results: Seq<(EntryV, Outcome)>) -> nat
    decreases results.len(),
{
    if results.len() == 0 {
        0
    } else {
        count_invalid(results.drop_last()) + if results.last().1 is Invalid {
            1nat
        } else {
            0nat
        }
    }
}

/// The texts of the results classified `Valid`, in original relative
/// order.
pub open spec fn kept_raws(results: Seq<(EntryV, Outcome)>) -> Seq<Seq<char>>
    decreases results.len(),
{
    if results.len() == 0 {
        Seq::<Seq<char>>::empty()
    } else {
        let prefix = kept_raws(results.drop_last());
        if results.last().1 is Valid {
            prefix.push(results.last().0.raw)
        } else {
            prefix
        }
    }
}

/// The report owed for the given entries, existence outcomes, mode and
/// delimiter: every entry classified at its position, the invalid
/// outcomes counted, and — in Filter mode — the valid texts rejoined.
pub open spec fn validate_spec(
    entries: Seq<EntryV>,
    found: Seq<bool>,
    mode: Mode,
    delimiter: char,
) -> ReportV {
    let results = results_of(entries, found);
    ReportV {
        results,
        invalid_count: count_invalid(results),
        filtered: if mode is Filter {
            Some(join_spec(kept_raws(results), delimiter))
        } else {
            None
        },
    }
}

/// Extending the results by one pair raises the invalid count exactly
/// when the new outcome is `Invalid`.
proof fn lemma_count_invalid_push(results: Seq<(EntryV, Outcome)>, p: (EntryV, Outcome))
    ensures
        count_invalid(results.push(p)) == count_invalid(results) + if p.1 is Invalid {
            1nat
        } else {
            0nat
        },
{
    assert(results.push(p).drop_last() =~= results);
    assert(results.push(p).last() == p);
}

/// Extending the results by one pair appends its text to the kept texts
/// exactly when the new outcome is `Valid`.
proof fn lemma_kept_raws_push(results: Seq<(EntryV, Outcome)>, p: (EntryV, Outcome))
    ensures
        p.1 is Valid ==> kept_raws(results.push(p)) == kept_raws(results).push(p.0.raw),
        p.1 !is Valid ==> kept_raws(results.push(p)) == kept_raws(results),
{
    assert(results.push(p).drop_last() =~= results);
    assert(results.push(p).last() == p);
}

/// Rejoins the entries whose outcome is `Valid`, in original relative
/// order, with the delimiter between consecutive kept entries. If every
/// entry is invalid the result is the empty string.
fn join_valid(entries: &Vec<Entry>, outcomes: &Vec<Outcome>, delimiter: char) -> (out: Vec<char>)
    requires
        outcomes@.len() == entries@.len(),
    ensures
        out@ == join_spec(kept_raws(results_view(entries@, outcomes@)), delimiter),
{
    let ghost results = results_view(entries@, outcomes@);
    let mut out: Vec<char> = Vec::new();
    let mut any_kept: bool = false;
    let mut k: usize = 0;
    while k < entries.len()
        invariant
            k <= entries@.len(),
            outcomes@.len() == entries@.len(),
            results == results_view(entries@, outcomes@),
            results.len() == entries@.len(),
            any_kept <==> kept_raws(results.take(k as int)).len() > 0,
            out@ == join_spec(kept_raws(results.take(k as int)), delimiter),
        decreases entries@.len() - k,
    {
        proof {
            assert(results.take(k + 1) =~= results.take(k as int).push(results[k as int]));
            assert(results[k as int] == (entries@[k as int]@, outcomes@[k as int]));
            lemma_kept_raws_push(results.take(k as int), results[k as int]);
        }
        let keep = match outcomes[k] {
            Outcome::Valid => true,
            Outcome::Invalid => false,
        };
        if keep {
            proof {
                lemma_join_spec_push(
                    kept_raws(results.take(k as int)),
                    entries@[k as int].raw@,
                    delimiter,
                );
            }
            if any_kept {
                out.push(delimiter);
            }
            append_chars(&mut out, &entries[k].raw);
            proof {
                if any_kept {
                    assert(join_spec(kept_raws(results.take(k as int)), delimiter).push(delimiter)
                        + entries@[k as int].raw@ =~= join_spec(
                        kept_raws(results.take(k as int)),
                        delimiter,
                    ) + seq![delimiter] + entries@[k as int].raw@);
                } else {
                    assert(out@ =~= entries@[k as int].raw@);
                }
            }
            any_kept = true;
        }
        k += 1;
    }
    proof {
        assert(results.take(results.len() as int) =~= results);
    }
    out
}

/// Classifies every entry against the injected existence outcomes, in
/// input order, and produces the repair report: each entry paired with
/// its outcome at its original position, the exact count of invalid
/// outcomes, and — in Filter mode — the valid entries rejoined with the
/// delimiter used for splitting. The validator touches no store and no
/// filesystem; `found[i]` must hold what the caller's existence check
/// answered for the text of `entries[i]` (an empty text is invalid no
/// matter what the check answered).
pub fn validate(entries: Vec<Entry>, found: &Vec<bool>, mode: Mode, delimiter: char) -> (r:
    RepairReport)
    requires
        found@.len() == entries@.len(),
    ensures
        r.wf(),
        r@ == validate_spec(entry_views(entries@), found@, mode, delimiter),
        r.entries@ == entries@,
        r@.invalid_count == count_invalid(r@.results),
        mode is Filter <==> r.filtered is Some,
        r.filtered matches Some(f) ==> f@ == join_spec(kept_raws(r@.results), delimiter),
{
    let ghost evs = entry_views(entries@);
    let ghost all_results = results_of(evs, found@);
    let n = entries.len();
    let mut outcomes: Vec<Outcome> = Vec::new();
    let mut invalid_count: usize = 0;
    let mut i: usize = 0;
    while i < n
        invariant
            i <= n,
            n == entries@.len(),
            found@.len() == n,
            evs == entry_views(entries@),
            all_results == results_of(evs, found@),
            evs.len() == n,
            all_results.len() == n,
            outcomes@.len() == i,
            forall|k: int| 0 <= k < i ==> #[trigger] outcomes@[k] == all_results[k].1,
            invalid_count <= i,
            invalid_count as nat == count_invalid(all_results.take(i as int)),
        decreases n - i,
    {
        proof {
            assert(all_results.take(i + 1) =~= all_results.take(i as int).push(
                all_results[i as int],
            ));
            assert(all_results[i as int] == (evs[i as int], classify(evs[i as int].raw, found@[i as int])));
            assert(evs[i as int] == entries@[i as int]@);
            lemma_count_invalid_push(all_results.take(i as int), all_results[i as int]);
        }
        if entries[i].raw.len() == 0 || !found[i] {
            invalid_count = invalid_count + 1;
            outcomes.push(Outcome::Invalid);
        } else {
            outcomes.push(Outcome::Valid);
        }
        i += 1;
    }
    proof {
        assert(all_results.take(n as int) =~= all_results);
        assert(results_view(entries@, outcomes@) =~~= all_results);
    }
    let filtered = match mode {
        Mode::Report => None,
        Mode::Filter => Some(join_valid(&entries, &outcomes, delimiter)),
    };
    let r = RepairReport { entries, outcomes, invalid_count, filtered };
    proof {
        assert(r@ =~~= validate_spec(evs, found@, mode, delimiter));
    }
    r
}

/// Order preservation: a report pairs each entry with an outcome at the
/// entry's own input position, so when the entries carry their positions
/// as [`crate::parser::parse`] assigns them, the report's position
/// sequence is strictly increasing and matches input order.
pub proof fn lemma_order_preservation(
    entries: Seq<EntryV>,
    found: Seq<bool>,
    mode: Mode,
    delimiter: char,
)
    requires
        forall|i: int| 0 <= i < entries.len() ==> (#[trigger] entries[i]).index == i,
    ensures
        validate_spec(entries, found, mode, delimiter).results.len() == entries.len(),
        forall|i: int|
            0 <= i < entries.len() ==> (#[trigger] validate_spec(
                entries,
                found,
                mode,
                delimiter,
            ).results[i]).0 == entries[i],
        forall|i: int, j: int|
            0 <= i < j < entries.len() ==> (#[trigger] validate_spec(
                entries,
                found,
                mode,
                delimiter,
            ).results[i]).0.index < (#[trigger] validate_spec(
                entries,
                found,
                mode,
                delimiter,
            ).results[j]).0.index,
{
}

/// Filter correctness: a text stands among the kept texts if and only if
/// some entry with that text was classified `Valid`; entries classified
/// `Invalid` contribute nothing to the corrected string.
pub proof fn lemma_filter_correctness(results: Seq<(EntryV, Outcome)>)
    ensures
        forall|i: int|
            0 <= i < results.len() && (#[trigger] results[i]).1 is Valid ==> kept_raws(
                results,
            ).contains(results[i].0.raw),
        forall|s: Seq<char>|
            #[trigger] kept_raws(results).contains(s) ==> exists|i: int|
                0 <= i < results.len() && (#[trigger] results[i]).1 is Valid && results[i].0.raw
                    == s,
    decreases results.len(),
{
    if results.len() > 0 {
        let prefix = results.drop_last();
        let kept = kept_raws(results);
        let kept_prefix = kept_raws(prefix);
        lemma_filter_correctness(prefix);
        assert forall|i: int|
            0 <= i < results.len() && (#[trigger] results[i]).1 is Valid implies kept.contains(
            results[i].0.raw,
        ) by {
            if i == results.len() - 1 {
                assert(kept[kept.len() - 1] == results[i].0.raw);
            } else {
                assert(prefix[i] == results[i]);
                assert(kept_prefix.contains(results[i].0.raw));
                let j = choose|j: int|
                    0 <= j < kept_prefix.len() && kept_prefix[j] == results[i].0.raw;
                assert(kept[j] == results[i].0.raw);
            }
        }
        assert forall|s: Seq<char>| #[trigger] kept.contains(s) implies exists|i: int|
            0 <= i < results.len() && (#[trigger] results[i]).1 is Valid && results[i].0.raw
                == s by {
            let j = choose|j: int| 0 <= j < kept.len() && kept[j] == s;
            if j < kept_prefix.len() {
                assert(kept_prefix[j] == kept[j]);
                assert(kept_prefix.contains(s));
                let i = choose|i: int|
                    0 <= i < prefix.len() && (#[trigger] prefix[i]).1 is Valid && prefix[i].0.raw
                        == s;
                assert(prefix[i] == results[i]);
                assert(results[i].1 is Valid && results[i].0.raw == s);
            } else {
                assert(results.last().1 is Valid && results.last().0.raw == s);
                assert(results[results.len() - 1].1 is Valid && results[results.len()
                    - 1].0.raw == s);
            }
        }
    }
}

/// Idempotence: the report is a function of the entries, the existence
/// outcomes, the mode and the delimiter alone; two validations of the
/// same input under the same existence answers agree exactly, with no
/// hidden state.
pub proof fn lemma_validate_deterministic(
    r1: ReportV,
    r2: ReportV,
    entries: Seq<EntryV>,
    found: Seq<bool>,
    mode: Mode,
    delimiter: char,
)
    requires
        r1 == validate_spec(entries, found, mode, delimiter),
        r2 == validate_spec(entries, found, mode, delimiter),
    ensures
        r1 == r2,
{
}

} // verus!
