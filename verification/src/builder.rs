//! Decisions of the batch build: which directories are built, in what
//! order, which produced files are package archives, and the final tally.

use vstd::multiset::Multiset;
use vstd::prelude::*;
use vstd::string::*;

use crate::text::has_suffix;
use crate::text::lex_leq;
use crate::text::lex_leq_fn;
use crate::text::str_eq;
use crate::text::str_has_suffix;
use crate::text::str_leq;

verus! {

/// A directory name reserved for the build process itself.
pub open spec fn is_reserved_dir(s: Seq<char>) -> bool {
    s == "pkgs"@ || s == "build"@
}

/// Accepts the names that may be built.
pub open spec fn candidate_filter() -> spec_fn(Seq<char>) -> bool {
    |n: Seq<char>| !is_reserved_dir(n)
}

/// The character sequences of a list of names.
pub open spec fn name_views(s: Seq<String>) -> Seq<Seq<char>> {
    s.map_values(|x: String| x@)
}

/// Mapping to views commutes with appending one name.
proof fn lemma_views_push(s: Seq<String>, x: String)
    ensures
        name_views(s.push(x)) == name_views(s).push(x@),
{
    assert(name_views(s.push(x)) =~= name_views(s).push(x@));
}

/// Mapping to views commutes with removing one name.
proof fn lemma_views_remove(s: Seq<String>, i: int)
    requires
        0 <= i < s.len(),
    ensures
        name_views(s.remove(i)) == name_views(s).remove(i),
{
    assert(name_views(s.remove(i)) =~= name_views(s).remove(i));
}

/// Sorts names in ascending lexicographic order; the resulting order is
/// the one sorted arrangement of the input names.
fn sort_names(input: Vec<String>) -> (r: Vec<String>)
    ensures
        name_views(r@) == name_views(input@).sort_by(lex_leq_fn()),
{
    broadcast use vstd::seq_lib::group_to_multiset_ensures;

    let mut rem = input;
    let mut out: Vec<String> = Vec::new();
    proof {
        assert(name_views(out@).to_multiset().add(name_views(rem@).to_multiset()) =~= name_views(
            input@,
        ).to_multiset());
    }
    while rem.len() > 0
        invariant
            name_views(out@).to_multiset().add(name_views(rem@).to_multiset()) == name_views(
                input@,
            ).to_multiset(),
            forall|i: int, j: int|
                0 <= i < j < out@.len() ==> lex_leq(#[trigger] out@[i]@, #[trigger] out@[j]@),
            forall|i: int, j: int|
                0 <= i < out@.len() && 0 <= j < rem@.len() ==> lex_leq(
                    #[trigger] out@[i]@,
                    #[trigger] rem@[j]@,
                ),
        decreases rem.len(),
    {
        let mut min_idx: usize = 0;
        let mut k: usize = 1;
        proof {
            crate::text::lemma_lex_reflexive(rem@[0]@);
        }
        while k < rem.len()
            invariant
                rem@.len() > 0,
                min_idx < k <= rem@.len(),
                forall|m: int| 0 <= m < k ==> lex_leq(rem@[min_idx as int]@, #[trigger] rem@[m]@),
            decreases rem.len() - k,
        {
            if str_leq(rem[k].as_str(), rem[min_idx].as_str()) {
                proof {
                    assert forall|m: int| 0 <= m < k + 1 implies lex_leq(
                        rem@[k as int]@,
                        #[trigger] rem@[m]@,
                    ) by {
                        if m < k {
                            crate::text::lemma_lex_transitive(
                                rem@[k as int]@,
                                rem@[min_idx as int]@,
                                rem@[m]@,
                            );
                        } else {
                            crate::text::lemma_lex_reflexive(rem@[k as int]@);
                        }
                    }
                }
                min_idx = k;
            } else {
                proof {
                    crate::text::lemma_lex_connected(rem@[k as int]@, rem@[min_idx as int]@);
                }
            }
            k += 1;
        }
        let ghost old_out = out@;
        let ghost old_rem = rem@;
        let x = rem.remove(min_idx);
        out.push(x);
        proof {
            broadcast use vstd::multiset::group_multiset_axioms;

            lemma_views_push(old_out, x);
            lemma_views_remove(old_rem, min_idx as int);
            let views_out = name_views(out@);
            let views_old_out = name_views(old_out);
            let views_rem = name_views(rem@);
            let views_old_rem = name_views(old_rem);
            assert(views_old_rem.to_multiset().count(x@) > 0) by {
                assert(views_old_rem[min_idx as int] == x@);
                assert(views_old_rem.contains(x@));
                vstd::seq_lib::to_multiset_contains(views_old_rem, x@);
            }
            assert(views_out.to_multiset() =~= views_old_out.to_multiset().insert(x@)) by {
                assert(views_out == views_old_out.push(x@));
                vstd::seq_lib::to_multiset_build(views_old_out, x@);
            }
            assert(views_rem.to_multiset() =~= views_old_rem.to_multiset().remove(x@)) by {
                assert(views_rem == views_old_rem.remove(min_idx as int));
                vstd::seq_lib::to_multiset_remove(views_old_rem, min_idx as int);
            }
            assert(views_out.to_multiset().add(views_rem.to_multiset()) =~= name_views(input@)
                .to_multiset());
            assert forall|i: int, j: int| 0 <= i < j < out@.len() implies lex_leq(
                #[trigger] out@[i]@,
                #[trigger] out@[j]@,
            ) by {
                if j < out@.len() - 1 {
                    assert(out@[i] == old_out[i] && out@[j] == old_out[j]);
                } else {
                    assert(out@[j] == x && x == old_rem[min_idx as int]);
                }
            }
            assert forall|i: int, j: int|
                0 <= i < out@.len() && 0 <= j < rem@.len() implies lex_leq(
                #[trigger] out@[i]@,
                #[trigger] rem@[j]@,
            ) by {
                let j0: int = if j < min_idx { j } else { j + 1 };
                assert(rem@[j] == old_rem[j0]);
                if i < out@.len() - 1 {
                    assert(out@[i] == old_out[i]);
                } else {
                    assert(out@[i] == x && x == old_rem[min_idx as int]);
                }
            }
        }
    }
    proof {
        crate::text::lemma_lex_total_ordering();
        let leq = lex_leq_fn();
        assert(name_views(rem@).to_multiset() =~= Multiset::<Seq<char>>::empty());
        assert(name_views(out@).to_multiset() =~= name_views(input@).to_multiset());
        name_views(input@).lemma_sort_by_ensures(leq);
        assert(vstd::relations::sorted_by(name_views(out@), leq)) by {
            assert forall|i: int, j: int|
                0 <= i < j < name_views(out@).len() implies #[trigger] leq(
                name_views(out@)[i],
                name_views(out@)[j],
            ) by {
                assert(name_views(out@)[i] == out@[i]@);
                assert(name_views(out@)[j] == out@[j]@);
            }
        }
        vstd::seq_lib::lemma_sorted_unique(
            name_views(out@),
            name_views(input@).sort_by(leq),
            leq,
        );
    }
    out
}

/// Selects and orders the directories to build: every given name except
/// the reserved scratch and output directories, in ascending name order.
/// The order is canonical whatever order the names were discovered in.
pub fn build_candidates(names: Vec<String>) -> (r: Vec<String>)
    ensures
        name_views(r@) == name_views(names@).filter(candidate_filter()).sort_by(lex_leq_fn()),
{
    let ghost pred = candidate_filter();
    let mut kept: Vec<String> = Vec::new();
    let mut i: usize = 0;
    proof {
        reveal(Seq::filter);
        assert(names@.take(0) =~= Seq::<String>::empty());
        assert(name_views(kept@) =~= name_views(names@.take(0)).filter(pred));
    }
    while i < names.len()
        invariant
            0 <= i <= names@.len(),
            pred == candidate_filter(),
            name_views(kept@) == name_views(names@.take(i as int)).filter(pred),
        decreases names@.len() - i,
    {
        let ghost old_kept = kept@;
        let name = &names[i];
        let keep = !str_eq(name.as_str(), "pkgs") && !str_eq(name.as_str(), "build");
        if keep {
            kept.push(name.clone());
        }
        proof {
            reveal(Seq::filter);
            let prev = name_views(names@.take(i as int));
            let cur = name_views(names@.take(i + 1));
            assert(cur.drop_last() =~= prev);
            assert(cur.last() == names@[i as int]@);
            if keep {
                lemma_views_push(old_kept, names@[i as int]);
                assert(name_views(kept@) =~= prev.filter(pred).push(names@[i as int]@));
            }
        }
        i += 1;
    }
    proof {
        assert(names@.take(names@.len() as int) =~= names@);
    }
    sort_names(kept)
}

/// Whether a produced file name is a package archive, by its suffix.
pub fn is_artifact_name(name: &str) -> (r: bool)
    ensures
        r == has_suffix(name@, ".pkg.tar.zst"@),
{
    str_has_suffix(name, ".pkg.tar.zst")
}

/// How many of the outcomes are successes.
pub open spec fn count_true(s: Seq<bool>) -> int
    decreases s.len(),
{
    if s.len() == 0 {
        0
    } else {
        count_true(s.drop_last()) + if s.last() {
            1int
        } else {
            0int
        }
    }
}

/// Tallies per-package build outcomes: how many succeeded and how many
/// failed. The two counts cover the whole list.
pub fn tally_outcomes(outcomes: &Vec<bool>) -> (r: (usize, usize))
    ensures
        r.0 == count_true(outcomes@),
        r.1 == outcomes@.len() - count_true(outcomes@),
{
    let mut succeeded: usize = 0;
    let mut failed: usize = 0;
    let mut i: usize = 0;
    proof {
        assert(outcomes@.take(0) =~= Seq::<bool>::empty());
    }
    while i < outcomes.len()
        invariant
            0 <= i <= outcomes@.len(),
            succeeded == count_true(outcomes@.take(i as int)),
            succeeded + failed == i,
        decreases outcomes@.len() - i,
    {
        proof {
            assert(outcomes@.take(i + 1).drop_last() =~= outcomes@.take(i as int));
            assert(outcomes@.take(i + 1).last() == outcomes@[i as int]);
        }
        if outcomes[i] {
            succeeded += 1;
        } else {
            failed += 1;
        }
        i += 1;
    }
    proof {
        assert(outcomes@.take(outcomes@.len() as int) =~= outcomes@);
    }
    (succeeded, failed)
}

} // verus!
