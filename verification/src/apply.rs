//! Applying the renames the user selected: where each file goes (its
//! suggested name, numbered when taken), what is reported for it, and the
//! tally of a batch.

use vstd::prelude::*;
use vstd::hash_set::StringHashSet;
use crate::naming::{
    candidate, compute_suggested_name_in, law_candidates_lie_in_the_folder, numbered_name, or_empty, resolution,
    resolve_conflict_in, suggested_name_spec,
};
use crate::paths::{components, file_name_spec, lemma_parent_components, opt_text, parent_of, parent_spec, PathStyle};

verus! {

/// A rename the user asked for: the file at `path` gets `new_extension`.
#[derive(Clone, Debug, PartialEq, Eq)]
pub struct RenameRequest {
    pub path: String,
    pub new_extension: String,
}

/// What became of one requested rename: the new path when it was renamed,
/// the error otherwise.
#[derive(Clone, Debug, PartialEq, Eq)]
pub struct RenameOutcome {
    pub path: String,
    pub new_path: Option<String>,
    pub error: Option<String>,
}

/// How many renames of a batch went through and how many failed.
#[derive(Clone, Copy, Debug, PartialEq, Eq)]
pub struct ApplySummary {
    pub renamed: usize,
    pub failed: usize,
}

/// The error reported when every numbered name for a rename is taken.
pub open spec fn no_free_name_message() -> Seq<char> {
    "no free name is left for the renamed file"@
}

/// The folder a file at `p` is renamed within: its parent, or nothing
/// when the path has none.
pub open spec fn rename_folder(s: PathStyle, p: Seq<char>) -> Seq<char> {
    or_empty(parent_spec(s, p))
}

/// The text of a rename result.
pub open spec fn result_text(r: Result<(), String>) -> Result<(), Seq<char>> {
    match r {
        Ok(()) => Ok(()),
        Err(e) => Err(e@),
    }
}

/// Whether some call of `rename` moving `from` to `to` answered `result`.
pub open spec fn rename_answered<F: Fn(&str, &str) -> Result<(), String>>(
    rename: F,
    from: Seq<char>,
    to: Seq<char>,
    result: Result<(), Seq<char>>,
) -> bool {
    exists|a: &str, b: &str, r: Result<(), String>|
        a@ == from && b@ == to && result_text(r) == result && #[trigger] call_ensures(rename, (a, b), r)
}

/// Carries out one rename request of a batch. The file is renamed, within
/// its folder, to the name suggested for its content's format
/// (`compute_suggested_name` with the request's extension as the
/// canonical one). A name that is taken - reported by `on_disk`, or
/// claimed by an earlier rename of the batch - is never overwritten: a
/// numbered suffix is added instead, as `resolve_conflict` does, and the
/// key of the path used is claimed. `rename` moves the file, and its answer decides
/// the outcome. Paths are read by the rules `style`.
pub fn rename_one(
    style: PathStyle,
    request: &RenameRequest,
    claimed: &mut StringHashSet,
    on_disk: impl Fn(&str) -> bool,
    rename: impl Fn(&str, &str) -> Result<(), String>,
) -> (r: RenameOutcome)
    requires
        forall|s: &str| call_requires(on_disk, (s,)),
        forall|a: &str, b: &str| call_requires(rename, (a, b)),
    ensures
        r.path@ == request.path@,
        exists|target: Option<Seq<char>>| {
            &&& resolution(
                style,
                rename_folder(style, request.path@),
                suggested_name_spec(style, request.path@, request.new_extension@),
                old(claimed)@,
                final(claimed)@,
                on_disk,
                target,
            )
            &&& match target {
                None => r.new_path is None && opt_text(r.error) == Some(no_free_name_message()),
                Some(t) => {
                    ||| rename_answered(rename, request.path@, t, Ok(())) && opt_text(r.new_path)
                        == Some(t) && r.error is None
                    ||| exists|e: Seq<char>|
                        rename_answered(rename, request.path@, t, Err(e)) && r.new_path is None
                            && opt_text(r.error) == Some(e)
                },
            }
        },
{
    let folder = match parent_of(style, request.path.as_str()) {
        Some(p) => p,
        None => String::new(),
    };
    let name = compute_suggested_name_in(style, request.path.as_str(), request.new_extension.as_str());
    assert(folder@ == rename_folder(style, request.path@));
    let resolved = resolve_conflict_in(style, folder.as_str(), name.as_str(), claimed, on_disk);
    let ghost target = opt_text(resolved);
    assert(resolution(
        style,
        rename_folder(style, request.path@),
        suggested_name_spec(style, request.path@, request.new_extension@),
        old(claimed)@,
        claimed@,
        on_disk,
        target,
    ));
    match resolved {
        None => RenameOutcome {
            path: request.path.clone(),
            new_path: None,
            error: Some(String::from_str("no free name is left for the renamed file")),
        },
        Some(t) => {
            let from = request.path.as_str();
            let to = t.as_str();
            let result = rename(from, to);
            assert(call_ensures(rename, (from, to), result));
            match result {
                Ok(()) => {
                    assert(rename_answered(rename, request.path@, t@, Ok(())));
                    RenameOutcome { path: request.path.clone(), new_path: Some(t), error: None }
                },
                Err(e) => {
                    let ghost text = e@;
                    assert(result_text(result) == Err::<(), Seq<char>>(text));
                    assert(rename_answered(rename, request.path@, t@, Err(text)));
                    RenameOutcome { path: request.path.clone(), new_path: None, error: Some(e) }
                },
            }
        },
    }
}

/// How many of `outcomes` failed.
pub open spec fn failed_count(outcomes: Seq<RenameOutcome>) -> nat
    decreases outcomes.len(),
{
    if outcomes.len() == 0 {
        0
    } else {
        failed_count(outcomes.drop_last()) + if outcomes.last().error is Some {
            1nat
        } else {
            0nat
        }
    }
}

/// How many of `outcomes` went through.
pub open spec fn renamed_count(outcomes: Seq<RenameOutcome>) -> nat
    decreases outcomes.len(),
{
    if outcomes.len() == 0 {
        0
    } else {
        renamed_count(outcomes.drop_last()) + if outcomes.last().error is None {
            1nat
        } else {
            0nat
        }
    }
}

/// The tally of a batch: an outcome with an error counts as failed, any
/// other as renamed.
pub fn summarize(outcomes: &Vec<RenameOutcome>) -> (r: ApplySummary)
    ensures
        r.renamed == renamed_count(outcomes@),
        r.failed == failed_count(outcomes@),
{
    let mut renamed: usize = 0;
    let mut failed: usize = 0;
    let mut i: usize = 0;
    while i < outcomes.len()
        invariant
            i <= outcomes@.len(),
            renamed == renamed_count(outcomes@.take(i as int)),
            failed == failed_count(outcomes@.take(i as int)),
            renamed + failed == i,
        decreases outcomes@.len() - i,
    {
        assert(outcomes@.take(i + 1).drop_last() =~= outcomes@.take(i as int));
        if outcomes[i].error.is_some() {
            failed = failed + 1;
        } else {
            renamed = renamed + 1;
        }
        i = i + 1;
    }
    assert(outcomes@.take(outcomes@.len() as int) =~= outcomes@);
    ApplySummary { renamed, failed }
}

/// Every outcome is counted exactly once: renamed and failed add up to
/// the number of outcomes.
pub proof fn law_every_outcome_counted_once(outcomes: Seq<RenameOutcome>)
    ensures
        renamed_count(outcomes) + failed_count(outcomes) == outcomes.len(),
    decreases outcomes.len(),
{
    if outcomes.len() > 0 {
        law_every_outcome_counted_once(outcomes.drop_last());
    }
}

/// The tally counts by each outcome's own error: `failed` is the number of
/// outcomes that carry an error and `renamed` the number that carry none.
pub proof fn law_tally_counts_outcomes_by_their_error(outcomes: Seq<RenameOutcome>)
    ensures
        failed_count(outcomes) == outcomes.filter(|o: RenameOutcome| o.error is Some).len(),
        renamed_count(outcomes) == outcomes.filter(|o: RenameOutcome| o.error is None).len(),
    decreases outcomes.len(),
{
    reveal_with_fuel(Seq::filter, 2);
    if outcomes.len() > 0 {
        law_tally_counts_outcomes_by_their_error(outcomes.drop_last());
    }
}

/// A renamed file stays in its folder: whatever target the numbering
/// settles on for a suggested name that is a plain file name, that target
/// has the same parent as the file being renamed, and a file name of its
/// own.
pub proof fn law_renamed_file_stays_in_its_folder<F: Fn(&str) -> bool>(
    s: PathStyle,
    p: Seq<char>,
    name: Seq<char>,
    before: Set<Seq<char>>,
    after: Set<Seq<char>>,
    on_disk: F,
    t: Seq<char>,
)
    requires
        parent_spec(s, p) is Some,
        file_name_spec(s, name) == Some(name),
        resolution(s, rename_folder(s, p), name, before, after, on_disk, Some(t)),
    ensures
        parent_spec(s, t) == parent_spec(s, p),
        file_name_spec(s, t) is Some,
{
    let q = parent_spec(s, p)->0;
    assert(rename_folder(s, p) == q);
    assert(exists|n: nat| t == candidate(s, q, name, n));
    let n = choose|n: nat| t == candidate(s, q, name, n);
    law_candidates_lie_in_the_folder(s, q, name, n);
    lemma_parent_components(s, p);
    let tried = if n == 0 { name } else { numbered_name(s, name, n) };
    let ct = components(s, t);
    let cq = components(s, q);
    assert(ct.len() == cq.len() + 1);
    if cq.len() > 0 {
        assert(ct[ct.len() - 2] == cq.last());
        assert(t.take(q.len() as int) == q);
    } else {
        assert(q.len() == 0);
        assert(t.take(0) =~= q);
    }
}

} // verus!
