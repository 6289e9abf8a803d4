//! Per-package checks and the aggregation of their outcomes.
//!
//! One package check runs in stages: parse the declaration, parse the local
//! recipe, then judge the fetched remote recipe against the local version.
//! Each stage that fails settles the outcome with a message naming the
//! failing step; the collected outcomes are sorted by package name.

use vstd::multiset::Multiset;
use vstd::prelude::*;
use vstd::string::*;

use crate::config::RchanConfig;
use crate::config::yaml_string_field;
use crate::pkgbuild::PkgVersion;
use crate::pkgbuild::canonical_form;
use crate::pkgbuild::spec_extract;
use crate::text::concat_str;
use crate::text::lex_leq;
use crate::text::spec_decimal;
use crate::text::decimal;

verus! {

/// Scan result enum: the outcome of checking one package directory.
pub enum ScanResult {
    /// Remote version has been updated
    Updated { name: String, local_ver: String, remote_ver: String },
    /// Versions match, no update needed
    UpToDate { name: String, local_ver: String },
    /// An error occurred during processing
    Error { name: String, message: String },
}

/// The mathematical shape of an outcome: the same three variants over
/// character sequences.
pub enum OutcomeModel {
    Updated { name: Seq<char>, local: Seq<char>, remote: Seq<char> },
    UpToDate { name: Seq<char>, local: Seq<char> },
    Error { name: Seq<char>, message: Seq<char> },
}

impl View for ScanResult {
    type V = OutcomeModel;

    open spec fn view(&self) -> OutcomeModel {
        match *self {
            ScanResult::Updated { name, local_ver, remote_ver } => OutcomeModel::Updated {
                name: name@,
                local: local_ver@,
                remote: remote_ver@,
            },
            ScanResult::UpToDate { name, local_ver } => OutcomeModel::UpToDate {
                name: name@,
                local: local_ver@,
            },
            ScanResult::Error { name, message } => OutcomeModel::Error {
                name: name@,
                message: message@,
            },
        }
    }
}

/// The package name an outcome speaks of.
pub open spec fn result_name(r: ScanResult) -> Seq<char> {
    match r {
        ScanResult::Updated { name, .. } => name@,
        ScanResult::UpToDate { name, .. } => name@,
        ScanResult::Error { name, .. } => name@,
    }
}

impl ScanResult {
    /// The package name this outcome speaks of.
    pub fn name(&self) -> (r: &String)
        ensures
            r@ == result_name(*self),
    {
        match self {
            ScanResult::Updated { name, .. } => name,
            ScanResult::UpToDate { name, .. } => name,
            ScanResult::Error { name, .. } => name,
        }
    }
}

/// What came back from fetching the remote recipe.
pub enum FetchResult {
    /// A success response, with its body text.
    Body(String),
    /// The connection could not be established, with a description.
    Transport(String),
    /// A response outside the success range.
    Status(u16),
}

/// A package check short of the remote stage: either ready to fetch, or
/// already settled by a failing earlier stage.
pub enum LocalCheck {
    /// Declaration and local recipe parsed: fetch `url` and judge against
    /// `local`.
    Ready { url: String, local: PkgVersion },
    /// An earlier stage failed; the outcome stands.
    Settled(ScanResult),
}

/// Message head for a declaration that cannot be read or parsed.
pub open spec fn config_fail_prefix() -> Seq<char> {
    "Failed to parse rchan.yaml: "@
}

/// Message head for a local recipe that cannot be read or parsed.
pub open spec fn local_fail_prefix() -> Seq<char> {
    "Failed to parse local PKGBUILD: "@
}

/// Message head for a remote recipe that cannot be fetched or parsed.
pub open spec fn remote_fail_prefix() -> Seq<char> {
    "Failed to fetch remote PKGBUILD: "@
}

/// Message detail for a declaration without a usable remote location.
pub open spec fn config_format_detail() -> Seq<char> {
    "missing or invalid remote_pkgbuild"@
}

/// Message detail for a response outside the success range.
pub open spec fn status_detail(code: u16) -> Seq<char> {
    "HTTP status "@ + spec_decimal(code as nat)
}

/// The view of a read file: its text, or the description of the failure.
pub open spec fn text_or_error(r: Result<String, String>) -> Result<Seq<char>, Seq<char>> {
    match r {
        Ok(t) => Ok(t@),
        Err(d) => Err(d@),
    }
}

/// What the stages before the remote fetch yield: the declared remote
/// location with the two local version values, or the settling message.
pub open spec fn spec_local_stage(
    decl: Result<Seq<char>, Seq<char>>,
    recipe: Result<Seq<char>, Seq<char>>,
) -> Result<(Seq<char>, Seq<char>, Seq<char>), Seq<char>> {
    match decl {
        Err(d) => Err(config_fail_prefix() + d),
        Ok(dt) => match yaml_string_field(dt, "remote_pkgbuild"@) {
            None => Err(config_fail_prefix() + config_format_detail()),
            Some(url) => match recipe {
                Err(d) => Err(local_fail_prefix() + d),
                Ok(rt) => match spec_extract(rt) {
                    Err(e) => Err(local_fail_prefix() + e.spec_message()),
                    Ok(p) => Ok((url, p.0, p.1)),
                },
            },
        },
    }
}

/// The outcome of the remote stage, given the local version values.
pub open spec fn spec_remote_outcome(
    name: Seq<char>,
    ver: Seq<char>,
    rel: Seq<char>,
    remote: FetchResult,
) -> OutcomeModel {
    match remote {
        FetchResult::Transport(d) => OutcomeModel::Error {
            name,
            message: remote_fail_prefix() + d@,
        },
        FetchResult::Status(code) => OutcomeModel::Error {
            name,
            message: remote_fail_prefix() + status_detail(code),
        },
        FetchResult::Body(bt) => match spec_extract(bt@) {
            Err(e) => OutcomeModel::Error { name, message: remote_fail_prefix() + e.spec_message() },
            Ok(p) => if ver == p.0 && rel == p.1 {
                OutcomeModel::UpToDate { name, local: canonical_form(ver, rel) }
            } else {
                OutcomeModel::Updated {
                    name,
                    local: canonical_form(ver, rel),
                    remote: canonical_form(p.0, p.1),
                }
            },
        },
    }
}

/// The outcome of the whole check, from the three gathered inputs.
pub open spec fn spec_check_outcome(
    name: Seq<char>,
    decl: Result<Seq<char>, Seq<char>>,
    recipe: Result<Seq<char>, Seq<char>>,
    remote: FetchResult,
) -> OutcomeModel {
    match spec_local_stage(decl, recipe) {
        Err(m) => OutcomeModel::Error { name, message: m },
        Ok(t) => spec_remote_outcome(name, t.1, t.2, remote),
    }
}

/// Runs the stages before the remote fetch: parse the declaration, then
/// the local recipe. `declaration` and `recipe` carry each file's text, or
/// the description of why it could not be read.
pub fn check_local(
    name: &str,
    declaration: &Result<String, String>,
    recipe: &Result<String, String>,
) -> (r: LocalCheck)
    ensures
        match spec_local_stage(text_or_error(*declaration), text_or_error(*recipe)) {
            Err(m) => r matches LocalCheck::Settled(out) && out@ == (OutcomeModel::Error {
                name: name@,
                message: m,
            }),
            Ok(t) => r matches LocalCheck::Ready { url, local } && url@ == t.0 && local.pkgver@
                == t.1 && local.pkgrel@ == t.2 && local.wf(),
        },
{
    let decl_text = match declaration {
        Ok(t) => t,
        Err(d) => {
            return LocalCheck::Settled(ScanResult::Error {
                name: String::from_str(name),
                message: concat_str("Failed to parse rchan.yaml: ", d.as_str()),
            });
        },
    };
    let cfg = match RchanConfig::from_text(decl_text.as_str()) {
        Some(c) => c,
        None => {
            return LocalCheck::Settled(ScanResult::Error {
                name: String::from_str(name),
                message: concat_str(
                    "Failed to parse rchan.yaml: ",
                    "missing or invalid remote_pkgbuild",
                ),
            });
        },
    };
    let recipe_text = match recipe {
        Ok(t) => t,
        Err(d) => {
            return LocalCheck::Settled(ScanResult::Error {
                name: String::from_str(name),
                message: concat_str("Failed to parse local PKGBUILD: ", d.as_str()),
            });
        },
    };
    let local = match crate::pkgbuild::parse_pkgbuild(recipe_text.as_str()) {
        Ok(v) => v,
        Err(e) => {
            let detail = e.message();
            return LocalCheck::Settled(ScanResult::Error {
                name: String::from_str(name),
                message: concat_str("Failed to parse local PKGBUILD: ", detail.as_str()),
            });
        },
    };
    LocalCheck::Ready { url: cfg.remote_pkgbuild, local }
}

/// Judges the fetched remote recipe against the local version.
pub fn check_remote(name: &str, local: &PkgVersion, remote: &FetchResult) -> (r: ScanResult)
    ensures
        r@ == spec_remote_outcome(name@, local.pkgver@, local.pkgrel@, *remote),
{
    match remote {
        FetchResult::Transport(d) => ScanResult::Error {
            name: String::from_str(name),
            message: concat_str("Failed to fetch remote PKGBUILD: ", d.as_str()),
        },
        FetchResult::Status(code) => {
            let rendered = decimal(*code);
            let detail = concat_str("HTTP status ", rendered.as_str());
            let out = ScanResult::Error {
                name: String::from_str(name),
                message: concat_str("Failed to fetch remote PKGBUILD: ", detail.as_str()),
            };
            proof {
                assert(remote_fail_prefix() + ("HTTP status "@ + spec_decimal(*code as nat)) =~= (
                remote_fail_prefix() + "HTTP status "@) + spec_decimal(*code as nat));
            }
            out
        },
        FetchResult::Body(bt) => {
            match crate::pkgbuild::parse_pkgbuild(bt.as_str()) {
                Err(e) => {
                    let detail = e.message();
                    ScanResult::Error {
                        name: String::from_str(name),
                        message: concat_str("Failed to fetch remote PKGBUILD: ", detail.as_str()),
                    }
                },
                Ok(remote_v) => {
                    if *local == remote_v {
                        ScanResult::UpToDate {
                            name: String::from_str(name),
                            local_ver: local.canonical(),
                        }
                    } else {
                        ScanResult::Updated {
                            name: String::from_str(name),
                            local_ver: local.canonical(),
                            remote_ver: remote_v.canonical(),
                        }
                    }
                },
            }
        },
    }
}

/// Checks one package from its gathered inputs: the declaration text, the
/// local recipe text and the remote fetch result. The outcome is settled by
/// the first failing stage; the remote result is not consulted when an
/// earlier stage fails.
pub fn check_package(
    name: &str,
    declaration: &Result<String, String>,
    recipe: &Result<String, String>,
    remote: &FetchResult,
) -> (r: ScanResult)
    ensures
        r@ == spec_check_outcome(
            name@,
            text_or_error(*declaration),
            text_or_error(*recipe),
            *remote,
        ),
{
    match check_local(name, declaration, recipe) {
        LocalCheck::Settled(out) => out,
        LocalCheck::Ready { url: _, local } => check_remote(name, &local, remote),
    }
}

/// The names of the outcomes, in list order.
pub open spec fn result_names(s: Seq<ScanResult>) -> Seq<Seq<char>> {
    s.map_values(|r: ScanResult| result_name(r))
}

/// The outcomes stand in ascending name order.
pub open spec fn sorted_by_name(s: Seq<ScanResult>) -> bool {
    forall|i: int, j: int|
        0 <= i < j < s.len() ==> lex_leq(result_name(#[trigger] s[i]), result_name(#[trigger] s[j]))
}

/// Mapping to names commutes with appending one outcome.
proof fn lemma_names_push(s: Seq<ScanResult>, x: ScanResult)
    ensures
        result_names(s.push(x)) == result_names(s).push(result_name(x)),
{
    assert(result_names(s.push(x)) =~= result_names(s).push(result_name(x)));
}

/// Mapping to names commutes with removing one outcome.
proof fn lemma_names_remove(s: Seq<ScanResult>, i: int)
    requires
        0 <= i < s.len(),
    ensures
        result_names(s.remove(i)) == result_names(s).remove(i),
{
    assert(result_names(s.remove(i)) =~= result_names(s).remove(i));
}

/// Sorts the outcomes by package name, ascending. The order of the result
/// is canonical: its name list is the lexicographically sorted arrangement
/// of the input's names, whatever order the input stood in.
pub fn sort_results(input: Vec<ScanResult>) -> (r: Vec<ScanResult>)
    ensures
        r@.len() == input@.len(),
        r@.to_multiset() == input@.to_multiset(),
        sorted_by_name(r@),
        result_names(r@) == result_names(input@).sort_by(crate::text::lex_leq_fn()),
{
    broadcast use vstd::seq_lib::group_to_multiset_ensures;

    let mut rem = input;
    let mut out: Vec<ScanResult> = Vec::new();
    proof {
        assert(out@.to_multiset().add(rem@.to_multiset()) =~= input@.to_multiset());
        assert(result_names(out@).to_multiset().add(result_names(rem@).to_multiset())
            =~= result_names(input@).to_multiset());
    }
    while rem.len() > 0
        invariant
            out@.to_multiset().add(rem@.to_multiset()) == input@.to_multiset(),
            result_names(out@).to_multiset().add(result_names(rem@).to_multiset())
                == result_names(input@).to_multiset(),
            sorted_by_name(out@),
            forall|i: int, j: int|
                0 <= i < out@.len() && 0 <= j < rem@.len() ==> lex_leq(
                    result_name(#[trigger] out@[i]),
                    result_name(#[trigger] rem@[j]),
                ),
        decreases rem.len(),
    {
        let mut min_idx: usize = 0;
        let mut k: usize = 1;
        proof {
            crate::text::lemma_lex_reflexive(result_name(rem@[0]));
        }
        while k < rem.len()
            invariant
                rem@.len() > 0,
                min_idx < k <= rem@.len(),
                forall|m: int|
                    0 <= m < k ==> lex_leq(
                        result_name(rem@[min_idx as int]),
                        result_name(#[trigger] rem@[m]),
                    ),
            decreases rem.len() - k,
        {
            let candidate = &rem[k];
            let held = &rem[min_idx];
            if crate::text::str_leq(candidate.name().as_str(), held.name().as_str()) {
                proof {
                    assert forall|m: int| 0 <= m < k + 1 implies lex_leq(
                        result_name(rem@[k as int]),
                        result_name(#[trigger] rem@[m]),
                    ) by {
                        if m < k {
                            crate::text::lemma_lex_transitive(
                                result_name(rem@[k as int]),
                                result_name(rem@[min_idx as int]),
                                result_name(rem@[m]),
                            );
                        } else {
                            crate::text::lemma_lex_reflexive(result_name(rem@[k as int]));
                        }
                    }
                }
                min_idx = k;
            } else {
                proof {
                    crate::text::lemma_lex_connected(
                        result_name(rem@[k as int]),
                        result_name(rem@[min_idx as int]),
                    );
                }
            }
            k += 1;
        }
        let ghost old_out = out@;
        let ghost old_rem = rem@;
        let x = rem.remove(min_idx);
        out.push(x);
        proof {
            broadcast use vstd::multiset::group_multiset_axioms;

            lemma_names_push(old_out, x);
            lemma_names_remove(old_rem, min_idx as int);
            assert(out@ == old_out.push(x));
            assert(rem@ == old_rem.remove(min_idx as int));
            assert(old_rem.to_multiset().count(x) > 0) by {
                assert(old_rem[min_idx as int] == x);
                assert(old_rem.contains(x));
                vstd::seq_lib::to_multiset_contains(old_rem, x);
            }
            assert(out@.to_multiset() =~= old_out.to_multiset().insert(x)) by {
                vstd::seq_lib::to_multiset_build(old_out, x);
            }
            assert(rem@.to_multiset() =~= old_rem.to_multiset().remove(x)) by {
                vstd::seq_lib::to_multiset_remove(old_rem, min_idx as int);
            }
            assert(out@.to_multiset().add(rem@.to_multiset()) =~= old_out.to_multiset().add(
                old_rem.to_multiset(),
            ));
            let names_out = result_names(out@);
            let names_old_out = result_names(old_out);
            let names_rem = result_names(rem@);
            let names_old_rem = result_names(old_rem);
            assert(names_old_rem.to_multiset().count(result_name(x)) > 0) by {
                assert(names_old_rem[min_idx as int] == result_name(x));
                assert(names_old_rem.contains(result_name(x)));
                vstd::seq_lib::to_multiset_contains(names_old_rem, result_name(x));
            }
            assert(names_out.to_multiset() =~= names_old_out.to_multiset().insert(result_name(x)))
                by {
                assert(names_out == names_old_out.push(result_name(x)));
                vstd::seq_lib::to_multiset_build(names_old_out, result_name(x));
            }
            assert(names_rem.to_multiset() =~= names_old_rem.to_multiset().remove(result_name(x)))
                by {
                assert(names_rem == names_old_rem.remove(min_idx as int));
                vstd::seq_lib::to_multiset_remove(names_old_rem, min_idx as int);
            }
            assert(result_names(out@).to_multiset().add(result_names(rem@).to_multiset())
                =~= result_names(old_out).to_multiset().add(result_names(old_rem).to_multiset()));
            assert(result_names(out@).to_multiset().add(result_names(rem@).to_multiset())
                =~= result_names(input@).to_multiset());
            assert forall|i: int, j: int| 0 <= i < j < out@.len() implies lex_leq(
                result_name(#[trigger] out@[i]),
                result_name(#[trigger] out@[j]),
            ) by {
                if j < out@.len() - 1 {
                    assert(out@[i] == old_out[i] && out@[j] == old_out[j]);
                } else {
                    assert(out@[j] == x && x == old_rem[min_idx as int]);
                }
            }
            assert forall|i: int, j: int|
                0 <= i < out@.len() && 0 <= j < rem@.len() implies lex_leq(
                result_name(#[trigger] out@[i]),
                result_name(#[trigger] rem@[j]),
            ) by {
                let j0: int = if j < min_idx { j } else { j + 1 };
                assert(rem@[j] == old_rem[j0]);
                if i < out@.len() - 1 {
                    assert(out@[i] == old_out[i]);
                } else {
                    assert(out@[i] == x && x == old_rem[min_idx as int]);
                }
            }
        }
    }
    proof {
        crate::text::lemma_lex_total_ordering();
        let leq = crate::text::lex_leq_fn();
        assert(rem@.to_multiset() =~= Multiset::<ScanResult>::empty());
        assert(result_names(rem@).to_multiset() =~= Multiset::<Seq<char>>::empty());
        assert(out@.to_multiset() =~= input@.to_multiset());
        assert(result_names(out@).to_multiset() =~= result_names(input@).to_multiset());
        assert(out@.len() == input@.len()) by {
            vstd::seq_lib::to_multiset_len(out@);
            vstd::seq_lib::to_multiset_len(input@);
        }
        result_names(input@).lemma_sort_by_ensures(leq);
        assert(vstd::relations::sorted_by(result_names(out@), leq)) by {
            assert forall|i: int, j: int| 0 <= i < j < result_names(out@).len() implies #[trigger] leq(
                result_names(out@)[i],
                result_names(out@)[j],
            ) by {
                assert(result_names(out@)[i] == result_name(out@[i]));
                assert(result_names(out@)[j] == result_name(out@[j]));
            }
        }
        vstd::seq_lib::lemma_sorted_unique(
            result_names(out@),
            result_names(input@).sort_by(leq),
            leq,
        );
    }
    out
}

/// Any two outcome lists that carry the same names, in whatever order,
/// sort to the same name order: the report order does not depend on the
/// order in which the packages were checked.
pub proof fn lemma_sorted_order_canonical(a: Seq<ScanResult>, b: Seq<ScanResult>)
    requires
        result_names(a).to_multiset() == result_names(b).to_multiset(),
    ensures
        result_names(a).sort_by(crate::text::lex_leq_fn()) == result_names(b).sort_by(
            crate::text::lex_leq_fn(),
        ),
{
    crate::text::lemma_lex_total_ordering();
    let leq = crate::text::lex_leq_fn();
    result_names(a).lemma_sort_by_ensures(leq);
    result_names(b).lemma_sort_by_ensures(leq);
    vstd::seq_lib::lemma_sorted_unique(
        result_names(a).sort_by(leq),
        result_names(b).sort_by(leq),
        leq,
    );
}

/// How many of the outcomes the predicate accepts.
pub open spec fn count_matching(s: Seq<ScanResult>, pred: spec_fn(ScanResult) -> bool) -> int
    decreases s.len(),
{
    if s.len() == 0 {
        0
    } else {
        count_matching(s.drop_last(), pred) + if pred(s.last()) {
            1int
        } else {
            0int
        }
    }
}

/// Tallies the outcomes: how many packages were updated, how many are up
/// to date, and how many failed. The three counts cover the whole list.
pub fn summarize(results: &Vec<ScanResult>) -> (r: (usize, usize, usize))
    ensures
        r.0 == count_matching(results@, |o: ScanResult| o is Updated),
        r.1 == count_matching(results@, |o: ScanResult| o is UpToDate),
        r.2 == count_matching(results@, |o: ScanResult| o is Error),
        r.0 + r.1 + r.2 == results@.len(),
{
    let ghost pu = |o: ScanResult| o is Updated;
    let ghost pt = |o: ScanResult| o is UpToDate;
    let ghost pe = |o: ScanResult| o is Error;
    let mut updated: usize = 0;
    let mut up_to_date: usize = 0;
    let mut failed: usize = 0;
    let mut i: usize = 0;
    proof {
        assert(results@.take(0) =~= Seq::<ScanResult>::empty());
    }
    while i < results.len()
        invariant
            0 <= i <= results@.len(),
            updated == count_matching(results@.take(i as int), pu),
            up_to_date == count_matching(results@.take(i as int), pt),
            failed == count_matching(results@.take(i as int), pe),
            updated + up_to_date + failed == i,
            pu == (|o: ScanResult| o is Updated),
            pt == (|o: ScanResult| o is UpToDate),
            pe == (|o: ScanResult| o is Error),
        decreases results@.len() - i,
    {
        proof {
            assert(results@.take(i + 1).drop_last() =~= results@.take(i as int));
            assert(results@.take(i + 1).last() == results@[i as int]);
        }
        match &results[i] {
            ScanResult::Updated { .. } => {
                updated += 1;
            },
            ScanResult::UpToDate { .. } => {
                up_to_date += 1;
            },
            ScanResult::Error { .. } => {
                failed += 1;
            },
        }
        i += 1;
    }
    proof {
        assert(results@.take(results@.len() as int) =~= results@);
    }
    (updated, up_to_date, failed)
}

} // verus!
