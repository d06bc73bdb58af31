//! Scores of candidate elements against signatures, and the choice of the
//! elements that match a signature.
//!
//! An element is compared with a signature criterion by criterion
//! (`crate::compare`); how the criteria make one floating-point score is
//! the business of a function that the caller supplies, and that returns
//! the score as an order key: `None` for a score that compares with no
//! other (NaN), else an integer that orders as the scores do.
use vstd::prelude::*;
use crate::compare::{Comparison, ComparisonView, comparison_of, signature_criteria};
use crate::dom::Dom;
use crate::signature::{Signature, signature_wf};
use crate::text::{chars_to_string, str_chars};
use crate::utils::chars_eq;

verus! {

/// Order key of a score.
pub type ScoreKey = Option<u64>;

/// Order key of the score 0.75, the least score of a match.
pub const MATCH_THRESHOLD: u64 = 0xBFE8_0000_0000_0000;

/// `a` is a greater score than `b`; a NaN score is greater than none and
/// none is greater than it.
pub open spec fn score_gt(a: ScoreKey, b: ScoreKey) -> bool {
    a matches Some(x) && b matches Some(y) && x > y
}

/// `a` is a score of at least 0.75.
pub open spec fn is_match(a: ScoreKey) -> bool {
    a matches Some(x) && x >= MATCH_THRESHOLD
}

/// Compares two scores.
pub fn score_greater(a: ScoreKey, b: ScoreKey) -> (r: bool)
    ensures
        r == score_gt(a, b),
{
    match (a, b) {
        (Some(x), Some(y)) => x > y,
        _ => false,
    }
}

/// Whether a score is at least 0.75.
pub fn score_matches(a: ScoreKey) -> (r: bool)
    ensures
        r == is_match(a),
{
    match a {
        Some(x) => x >= MATCH_THRESHOLD,
        None => false,
    }
}

/// A candidate element with its score.
#[derive(Clone, Copy)]
pub struct ScoredElement(pub ScoreKey, pub usize);

/// `f` accepts every comparison, and its score depends only on the
/// comparison's value.
pub open spec fn is_scorer<F: Fn(&Comparison) -> ScoreKey>(f: F) -> bool {
    &&& forall|c: &Comparison| #[trigger] f.requires((c,))
    &&& forall|c1: &Comparison, c2: &Comparison, a: ScoreKey, b: ScoreKey|
        c1@ == c2@ && #[trigger] f.ensures((c1,), a) && #[trigger] f.ensures((c2,), b) ==> a == b
}

/// `f` may answer `k` for a comparison whose value is `cv`.
pub open spec fn scores_as<F: Fn(&Comparison) -> ScoreKey>(
    f: F,
    cv: ComparisonView,
    k: ScoreKey,
) -> bool {
    exists|c: Comparison| c@ == cv && #[trigger] f.ensures((&c,), k)
}

/// The score that `f` gives a comparison whose value is `cv`.
pub open spec fn comparison_score<F: Fn(&Comparison) -> ScoreKey>(f: F, cv: ComparisonView) -> ScoreKey {
    choose|k: ScoreKey| #[trigger] scores_as(f, cv, k)
}

/// The score that `f` gives element `e` of document `d` against signature
/// `s`: its score of the comparison of the two.
#[verifier::opaque]
pub open spec fn score_of<F: Fn(&Comparison) -> ScoreKey>(
    f: F,
    d: &Dom,
    s: &Signature,
    e: int,
) -> ScoreKey {
    comparison_score(f, comparison_of(s@, d@, e))
}

/// Compares element `e` with signature `s` and asks `f` for the score.
pub fn score_element<F: Fn(&Comparison) -> ScoreKey>(
    f: &F,
    d: &Dom,
    s: &Signature,
    e: usize,
) -> (r: ScoreKey)
    requires
        is_scorer(*f),
        signature_wf(s@),
        d@.wf(),
        e < d@.n(),
        d@.is_element(e as int),
    ensures
        r == score_of(*f, d, s, e as int),
{
    let c = signature_criteria(s, d, e);
    let r = f(&c);
    proof {
        reveal(score_of);
        assert(f.ensures((&c,), r));
        assert(scores_as(*f, comparison_of(s@, d@, e as int), r));
        let k = score_of(*f, d, s, e as int);
        let c2 = choose|c2: Comparison| c2@ == comparison_of(s@, d@, e as int) && #[trigger] f.ensures((&c2,), k);
        assert(f.ensures((&c2,), k));
    }
    r
}


/// Signatures to look for, each under the name of its field.
pub type NamedSignatures<'a> = [(&'a str, &'a Signature)];

/// The pairs of element `e` with the first `k` signatures named `name` whose
/// score is a match.
pub open spec fn element_matches<F: Fn(&Comparison) -> ScoreKey>(
    d: &Dom,
    names: Seq<Seq<char>>,
    sigs: Seq<Signature>,
    f: F,
    name: Seq<char>,
    e: int,
    k: int,
) -> Seq<ScoredElement>
    decreases k,
{
    if k <= 0 {
        seq![]
    } else {
        element_matches(d, names, sigs, f, name, e, k - 1) + if names[k - 1] == name && d@.is_element(e)
            && is_match(score_of(f, d, &sigs[k - 1], e)) {
            seq![ScoredElement(score_of(f, d, &sigs[k - 1], e), e as usize)]
        } else {
            seq![]
        }
    }
}

/// The matches for `name` among the elements in `[lo, hi)`, in document
/// order, and for each element in the order of the signatures.
pub open spec fn matches_between<F: Fn(&Comparison) -> ScoreKey>(
    d: &Dom,
    names: Seq<Seq<char>>,
    sigs: Seq<Signature>,
    f: F,
    name: Seq<char>,
    lo: int,
    hi: int,
) -> Seq<ScoredElement>
    decreases hi - lo,
{
    if hi <= lo {
        seq![]
    } else {
        matches_between(d, names, sigs, f, name, lo, hi - 1) + element_matches(
            d,
            names,
            sigs,
            f,
            name,
            hi - 1,
            names.len() as int,
        )
    }
}

/// Every signature is well formed.
pub open spec fn all_wf(sigs: Seq<(&str, &Signature)>) -> bool {
    forall|k: int| 0 <= k < sigs.len() ==> signature_wf((#[trigger] sigs[k]).1@)
}

/// The names of named signatures.
pub open spec fn names_of(sigs: Seq<(&str, &Signature)>) -> Seq<Seq<char>> {
    sigs.map_values(|p: (&str, &Signature)| p.0@)
}

/// The signatures of named signatures.
pub open spec fn sigs_of(sigs: Seq<(&str, &Signature)>) -> Seq<Signature> {
    sigs.map_values(|p: (&str, &Signature)| *p.1)
}

/// Some signature is named `name`.
pub open spec fn names_field(sigs: Seq<(&str, &Signature)>, name: Seq<char>) -> bool {
    exists|k: int| 0 <= k < sigs.len() && (#[trigger] sigs[k]).0@ == name
}

/// No two entries share a key.
pub open spec fn keys_distinct<V>(r: Seq<(String, V)>) -> bool {
    forall|i: int, j: int| 0 <= i < j < r.len() ==> (#[trigger] r[i]).0@ != (#[trigger] r[j]).0@
}

/// Some entry has key `name`.
pub open spec fn has_key<V>(r: Seq<(String, V)>, name: Seq<char>) -> bool {
    exists|i: int| 0 <= i < r.len() && (#[trigger] r[i]).0@ == name
}

/// The names of the first `k` signatures are among `names`.
pub open spec fn covers_names(names: Seq<Vec<char>>, sigs: Seq<(&str, &Signature)>, k: int) -> bool {
    forall|y: int|
        0 <= y < k ==> exists|i: int| 0 <= i < names.len() && (#[trigger] names[i])@ == (#[trigger] sigs[y]).0@
}

/// No name occurs twice.
pub open spec fn names_distinct(names: Seq<Vec<char>>) -> bool {
    forall|i: int, j: int| 0 <= i < j < names.len() ==> (#[trigger] names[i])@ != (#[trigger] names[j])@
}

/// Each of `names` names some signature.
pub open spec fn all_name_fields(names: Seq<Vec<char>>, sigs: Seq<(&str, &Signature)>) -> bool {
    forall|i: int| 0 <= i < names.len() ==> names_field(sigs, (#[trigger] names[i])@)
}

/// The distinct names of the signatures, in order of first appearance.
fn distinct_names(sigs: &NamedSignatures) -> (r: Vec<Vec<char>>)
    ensures
        names_distinct(r@),
        all_name_fields(r@, sigs@),
        covers_names(r@, sigs@, sigs@.len() as int),
{
    let mut r: Vec<Vec<char>> = Vec::new();
    let mut k: usize = 0;
    while k < sigs.len()
        invariant
            k <= sigs@.len(),
            names_distinct(r@),
            all_name_fields(r@, sigs@),
            covers_names(r@, sigs@, k as int),
        decreases sigs.len() - k,
    {
        let name = str_chars(sigs[k].0);
        let mut seen = false;
        let mut i: usize = 0;
        while i < r.len()
            invariant
                i <= r@.len(),
                seen <==> exists|j: int| 0 <= j < i && (#[trigger] r@[j])@ == name@,
            decreases r.len() - i,
        {
            if chars_eq(r[i].as_slice(), name.as_slice()) {
                seen = true;
            }
            i = i + 1;
        }
        let ghost old_r = r@;
        let ghost nm = name@;
        proof {
            assert(sigs@[k as int].0@ == nm);
        }
        if !seen {
            r.push(name);
            proof {
                assert(r@[old_r.len() as int]@ == nm);
                assert(names_field(sigs@, r@[old_r.len() as int]@)) by {
                    assert(sigs@[k as int].0@ == r@[old_r.len() as int]@);
                }
                assert(all_name_fields(r@, sigs@)) by {
                    assert forall|i: int| 0 <= i < r@.len() implies names_field(sigs@, (#[trigger] r@[i])@) by {
                        if i < old_r.len() {
                            assert(r@[i] == old_r[i]);
                        }
                    }
                }
                assert(names_distinct(r@)) by {
                    assert forall|i: int, j: int| 0 <= i < j < r@.len() implies (#[trigger] r@[i])@ != (#[trigger] r@[j])@ by {
                        assert(r@[i] == old_r[i]);
                        if j < old_r.len() {
                            assert(r@[j] == old_r[j]);
                        } else {
                            assert(old_r[i]@ != nm);
                        }
                    }
                }
            }
        }
        proof {
            assert(covers_names(r@, sigs@, k + 1)) by {
                assert forall|x: int| 0 <= x < k + 1 implies exists|i: int|
                    0 <= i < r@.len() && (#[trigger] r@[i])@ == (#[trigger] sigs@[x]).0@ by {
                    if x < k {
                        assert(sigs@[x].0@ == sigs@[x].0@);
                        let i = choose|i: int| 0 <= i < old_r.len() && (#[trigger] old_r[i])@ == (#[trigger] sigs@[x]).0@;
                        assert(r@[i] == old_r[i]);
                    } else if seen {
                        let j = choose|j: int| 0 <= j < old_r.len() && (#[trigger] old_r[j])@ == nm;
                        assert(r@[j] == old_r[j]);
                    } else {
                        assert(r@[old_r.len() as int]@ == sigs@[x].0@);
                    }
                }
            }
        }
        k = k + 1;
    }
    r
}

/// Finds, for each field, the elements of the subtree of `root` (`root`
/// included) whose score against the field's signature is at least 0.75.
/// A field has an entry only where it has some match.
pub fn find_signature_matches<F: Fn(&Comparison) -> ScoreKey>(
    dom: &Dom,
    root: usize,
    signatures: &NamedSignatures,
    score: &F,
) -> (r: Vec<(String, Vec<ScoredElement>)>)
    requires
        all_wf(signatures@),
        dom@.wf(),
        root < dom@.n(),
        is_scorer(*score),
    ensures
        keys_distinct(r@),
        forall|i: int|
            0 <= i < r@.len() ==> {
                &&& names_field(signatures@, (#[trigger] r@[i]).0@)
                &&& r@[i].1@ == matches_between(
                    dom,
                    names_of(signatures@),
                    sigs_of(signatures@),
                    *score,
                    r@[i].0@,
                    root as int,
                    dom@.ends[root as int],
                )
                &&& r@[i].1@.len() > 0
            },
        forall|name: Seq<char>|
            names_field(signatures@, name) && matches_between(
                dom,
                names_of(signatures@),
                sigs_of(signatures@),
                *score,
                name,
                root as int,
                dom@.ends[root as int],
            ).len() > 0 ==> #[trigger] has_key(r@, name),
{
    let names = distinct_names(signatures);
    let end = dom.end(root);
    let mut r: Vec<(String, Vec<ScoredElement>)> = Vec::new();
    for x in 0..names.len()
        invariant
            dom@.wf(),
            root < dom@.n(),
            end == dom@.ends[root as int],
            is_scorer(*score),
            all_wf(signatures@),
            names_distinct(names@),
            all_name_fields(names@, signatures@),
            covers_names(names@, signatures@, signatures@.len() as int),
            keys_distinct(r@),
            forall|i: int|
                0 <= i < r@.len() ==> {
                    &&& exists|j: int| 0 <= j < x && (#[trigger] names@[j])@ == (#[trigger] r@[i]).0@
                    &&& r@[i].1@ == matches_between(
                        dom,
                        names_of(signatures@),
                        sigs_of(signatures@),
                        *score,
                        r@[i].0@,
                        root as int,
                        end as int,
                    )
                    &&& r@[i].1@.len() > 0
                },
            forall|j: int|
                0 <= j < x && matches_between(
                    dom,
                    names_of(signatures@),
                    sigs_of(signatures@),
                    *score,
                    (#[trigger] names@[j])@,
                    root as int,
                    end as int,
                ).len() > 0 ==> has_key(r@, names@[j]@),
    {
        let name = &names[x];
        let list = matches_for(dom, root, signatures, score, name);
        if list.len() > 0 {
            let ghost old_r = r@;
            proof {
                assert forall|i: int| 0 <= i < old_r.len() implies old_r[i].0@ != name@ by {
                    let j = choose|j: int| 0 <= j < x && (#[trigger] names@[j])@ == old_r[i].0@;
                }
            }
            r.push((chars_to_string(name), list));
            proof {
                assert forall|j: int|
                    0 <= j < x + 1 && matches_between(
                        dom,
                        names_of(signatures@),
                        sigs_of(signatures@),
                        *score,
                        (#[trigger] names@[j])@,
                        root as int,
                        end as int,
                    ).len() > 0 implies has_key(r@, names@[j]@) by {
                    if j < x {
                        let i = choose|i: int| 0 <= i < old_r.len() && (#[trigger] old_r[i]).0@ == names@[j]@;
                        assert(r@[i] == old_r[i]);
                    } else {
                        assert(r@[old_r.len() as int].0@ == names@[j]@);
                    }
                }
                assert forall|i: int| 0 <= i < r@.len() implies exists|j: int|
                    0 <= j < x + 1 && (#[trigger] names@[j])@ == (#[trigger] r@[i]).0@ by {
                    if i == old_r.len() {
                        assert(names@[x as int]@ == r@[i].0@);
                    } else {
                        assert(r@[i] == old_r[i]);
                    }
                }
            }
        }
    }
    proof {
        assert forall|name: Seq<char>|
            names_field(signatures@, name) && matches_between(
                dom,
                names_of(signatures@),
                sigs_of(signatures@),
                *score,
                name,
                root as int,
                end as int,
            ).len() > 0 implies #[trigger] has_key(r@, name) by {
            let k = choose|k: int| 0 <= k < signatures@.len() && (#[trigger] signatures@[k]).0@ == name;
            let j = choose|j: int| 0 <= j < names@.len() && (#[trigger] names@[j])@ == signatures@[k].0@;
            assert(names@[j]@ == name);
        }
        assert forall|i: int| 0 <= i < r@.len() implies names_field(signatures@, (#[trigger] r@[i]).0@) by {
            let j = choose|j: int| 0 <= j < names@.len() && (#[trigger] names@[j])@ == r@[i].0@;
        }
    }
    r
}

/// The matches for one field name.
fn matches_for<F: Fn(&Comparison) -> ScoreKey>(
    dom: &Dom,
    root: usize,
    signatures: &NamedSignatures,
    score: &F,
    name: &Vec<char>,
) -> (r: Vec<ScoredElement>)
    requires
        all_wf(signatures@),
        dom@.wf(),
        root < dom@.n(),
        is_scorer(*score),
    ensures
        r@ == matches_between(
            dom,
            names_of(signatures@),
            sigs_of(signatures@),
            *score,
            name@,
            root as int,
            dom@.ends[root as int],
        ),
{
    let end = dom.end(root);
    let mut list: Vec<ScoredElement> = Vec::new();
    let mut e = root;
    while e < end
        invariant
            dom@.wf(),
            root < dom@.n(),
            end == dom@.ends[root as int],
            end <= dom@.n(),
            root <= e <= end,
            is_scorer(*score),
            all_wf(signatures@),
            list@ == matches_between(dom, names_of(signatures@), sigs_of(signatures@), *score, name@, root as int, e as int),
        decreases end - e,
    {
        let is_el = dom.is_element(e);
        let mut k: usize = 0;
        while k < signatures.len()
            invariant
                k <= signatures@.len(),
                dom@.wf(),
                e < dom@.n(),
                is_el == dom@.is_element(e as int),
                is_scorer(*score),
                all_wf(signatures@),
                list@ == matches_between(dom, names_of(signatures@), sigs_of(signatures@), *score, name@, root as int, e as int)
                    + element_matches(dom, names_of(signatures@), sigs_of(signatures@), *score, name@, e as int, k as int),
            decreases signatures.len() - k,
        {
            let ghost before = list@;
            let ghost prefix = matches_between(dom, names_of(signatures@), sigs_of(signatures@), *score, name@, root as int, e as int);
            let ghost em = element_matches(dom, names_of(signatures@), sigs_of(signatures@), *score, name@, e as int, k as int);
            if is_el {
                let (field, sig) = signatures[k];
                let fname = str_chars(field);
                assert(names_of(signatures@)[k as int] == field@);
                assert(sigs_of(signatures@)[k as int] == *sig);
                if chars_eq(fname.as_slice(), name.as_slice()) {
                    let s = score_element(score, dom, sig, e);
                    if score_matches(s) {
                        list.push(ScoredElement(s, e));
                        assert(list@ =~= prefix + (em + seq![ScoredElement(s, e)]));
                    }
                }
            }
            k = k + 1;
            assert(list@ =~= prefix + element_matches(dom, names_of(signatures@), sigs_of(signatures@), *score, name@, e as int, k as int));
        }
        e = e + 1;
    }
    list
}


/// The better of the best candidate so far and element `e` scored `s`: the
/// first candidate is kept until one scores strictly more.
pub open spec fn best_step(cur: Option<ScoredElement>, s: ScoreKey, e: int) -> Option<ScoredElement> {
    match cur {
        None => Some(ScoredElement(s, e as usize)),
        Some(b) => if score_gt(s, b.0) {
            Some(ScoredElement(s, e as usize))
        } else {
            cur
        },
    }
}

/// The best candidate after scoring element `e` against the first `k`
/// signatures named `name`, starting from `cur`.
pub open spec fn element_best<F: Fn(&Comparison) -> ScoreKey>(
    d: &Dom,
    names: Seq<Seq<char>>,
    sigs: Seq<Signature>,
    f: F,
    name: Seq<char>,
    e: int,
    k: int,
    cur: Option<ScoredElement>,
) -> Option<ScoredElement>
    decreases k,
{
    if k <= 0 {
        cur
    } else {
        let c = element_best(d, names, sigs, f, name, e, k - 1, cur);
        if names[k - 1] == name && d@.is_element(e) {
            best_step(c, score_of(f, d, &sigs[k - 1], e), e)
        } else {
            c
        }
    }
}

/// The best candidate for `name` among the elements in `[lo, hi)`.
pub open spec fn best_between<F: Fn(&Comparison) -> ScoreKey>(
    d: &Dom,
    names: Seq<Seq<char>>,
    sigs: Seq<Signature>,
    f: F,
    name: Seq<char>,
    lo: int,
    hi: int,
) -> Option<ScoredElement>
    decreases hi - lo,
{
    if hi <= lo {
        None
    } else {
        element_best(
            d,
            names,
            sigs,
            f,
            name,
            hi - 1,
            names.len() as int,
            best_between(d, names, sigs, f, name, lo, hi - 1),
        )
    }
}

/// The best candidate for one field name.
fn best_for<F: Fn(&Comparison) -> ScoreKey>(
    dom: &Dom,
    root: usize,
    signatures: &NamedSignatures,
    score: &F,
    name: &Vec<char>,
) -> (r: Option<ScoredElement>)
    requires
        all_wf(signatures@),
        dom@.wf(),
        root < dom@.n(),
        is_scorer(*score),
    ensures
        r == best_between(dom, names_of(signatures@), sigs_of(signatures@), *score, name@, root as int, dom@.ends[root as int]),
{
    let end = dom.end(root);
    let mut best: Option<ScoredElement> = None;
    let mut e = root;
    while e < end
        invariant
            dom@.wf(),
            root < dom@.n(),
            end == dom@.ends[root as int],
            end <= dom@.n(),
            root <= e <= end,
            is_scorer(*score),
            all_wf(signatures@),
            best == best_between(dom, names_of(signatures@), sigs_of(signatures@), *score, name@, root as int, e as int),
        decreases end - e,
    {
        let is_el = dom.is_element(e);
        let ghost before = best;
        let mut k: usize = 0;
        while k < signatures.len()
            invariant
                k <= signatures@.len(),
                dom@.wf(),
                e < dom@.n(),
                is_el == dom@.is_element(e as int),
                is_scorer(*score),
                all_wf(signatures@),
                best == element_best(dom, names_of(signatures@), sigs_of(signatures@), *score, name@, e as int, k as int, before),
            decreases signatures.len() - k,
        {
            if is_el {
                let (field, sig) = signatures[k];
                let fname = str_chars(field);
                assert(names_of(signatures@)[k as int] == field@);
                assert(sigs_of(signatures@)[k as int] == *sig);
                if chars_eq(fname.as_slice(), name.as_slice()) {
                    let s = score_element(score, dom, sig, e);
                    best = match best {
                        None => Some(ScoredElement(s, e)),
                        Some(b) => if score_greater(s, b.0) {
                            Some(ScoredElement(s, e))
                        } else {
                            Some(b)
                        },
                    };
                }
            }
            k = k + 1;
        }
        e = e + 1;
    }
    best
}

/// Finds, for each field, the element of the subtree of `root` (`root`
/// included) that scores best against the field's signature: the first in
/// document order among those that no other scores strictly more than.
pub fn find_best_signature_matches<F: Fn(&Comparison) -> ScoreKey>(
    dom: &Dom,
    root: usize,
    signatures: &NamedSignatures,
    score: &F,
) -> (r: Vec<(String, ScoredElement)>)
    requires
        all_wf(signatures@),
        dom@.wf(),
        root < dom@.n(),
        is_scorer(*score),
    ensures
        keys_distinct(r@),
        forall|i: int|
            0 <= i < r@.len() ==> {
                &&& names_field(signatures@, (#[trigger] r@[i]).0@)
                &&& best_between(
                    dom,
                    names_of(signatures@),
                    sigs_of(signatures@),
                    *score,
                    r@[i].0@,
                    root as int,
                    dom@.ends[root as int],
                ) == Some(r@[i].1)
            },
        forall|name: Seq<char>|
            names_field(signatures@, name) && best_between(
                dom,
                names_of(signatures@),
                sigs_of(signatures@),
                *score,
                name,
                root as int,
                dom@.ends[root as int],
            ) is Some ==> #[trigger] has_key(r@, name),
{
    let names = distinct_names(signatures);
    let end = dom.end(root);
    let mut r: Vec<(String, ScoredElement)> = Vec::new();
    for x in 0..names.len()
        invariant
            dom@.wf(),
            root < dom@.n(),
            end == dom@.ends[root as int],
            is_scorer(*score),
            all_wf(signatures@),
            names_distinct(names@),
            all_name_fields(names@, signatures@),
            covers_names(names@, signatures@, signatures@.len() as int),
            keys_distinct(r@),
            forall|i: int|
                0 <= i < r@.len() ==> {
                    &&& exists|j: int| 0 <= j < x && (#[trigger] names@[j])@ == (#[trigger] r@[i]).0@
                    &&& best_between(
                        dom,
                        names_of(signatures@),
                        sigs_of(signatures@),
                        *score,
                        r@[i].0@,
                        root as int,
                        end as int,
                    ) == Some(r@[i].1)
                },
            forall|j: int|
                0 <= j < x && best_between(
                    dom,
                    names_of(signatures@),
                    sigs_of(signatures@),
                    *score,
                    (#[trigger] names@[j])@,
                    root as int,
                    end as int,
                ) is Some ==> has_key(r@, names@[j]@),
    {
        let name = &names[x];
        let best = best_for(dom, root, signatures, score, name);
        if let Some(b) = best {
            let ghost old_r = r@;
            proof {
                assert forall|i: int| 0 <= i < old_r.len() implies old_r[i].0@ != name@ by {
                    let j = choose|j: int| 0 <= j < x && (#[trigger] names@[j])@ == old_r[i].0@;
                }
            }
            r.push((chars_to_string(name), b));
            proof {
                assert forall|j: int|
                    0 <= j < x + 1 && best_between(
                        dom,
                        names_of(signatures@),
                        sigs_of(signatures@),
                        *score,
                        (#[trigger] names@[j])@,
                        root as int,
                        end as int,
                    ) is Some implies has_key(r@, names@[j]@) by {
                    if j < x {
                        let i = choose|i: int| 0 <= i < old_r.len() && (#[trigger] old_r[i]).0@ == names@[j]@;
                        assert(r@[i] == old_r[i]);
                    } else {
                        assert(r@[old_r.len() as int].0@ == names@[j]@);
                    }
                }
                assert forall|i: int| 0 <= i < r@.len() implies exists|j: int|
                    0 <= j < x + 1 && (#[trigger] names@[j])@ == (#[trigger] r@[i]).0@ by {
                    if i == old_r.len() {
                        assert(names@[x as int]@ == r@[i].0@);
                    } else {
                        assert(r@[i] == old_r[i]);
                    }
                }
            }
        }
    }
    proof {
        assert forall|name: Seq<char>|
            names_field(signatures@, name) && best_between(
                dom,
                names_of(signatures@),
                sigs_of(signatures@),
                *score,
                name,
                root as int,
                end as int,
            ) is Some implies #[trigger] has_key(r@, name) by {
            let k = choose|k: int| 0 <= k < signatures@.len() && (#[trigger] signatures@[k]).0@ == name;
            assert(signatures@[k].0@ == signatures@[k].0@);
            let j = choose|j: int| 0 <= j < names@.len() && (#[trigger] names@[j])@ == signatures@[k].0@;
            assert(names@[j]@ == name);
        }
        assert forall|i: int| 0 <= i < r@.len() implies names_field(signatures@, (#[trigger] r@[i]).0@) by {
            let j = choose|j: int| 0 <= j < names@.len() && (#[trigger] names@[j])@ == r@[i].0@;
        }
    }
    r
}


/// The pair of element `e` and the `k`-th signature is one that the
/// search for `name` in `[lo, hi)` weighs: `e` is an element of
/// `[lo, hi)` and the signature is named `name`.
pub open spec fn considered(
    d: &Dom,
    names: Seq<Seq<char>>,
    name: Seq<char>,
    lo: int,
    hi: int,
    e: int,
    k: int,
) -> bool {
    &&& lo <= e < hi
    &&& 0 <= k < names.len()
    &&& names[k] == name
    &&& d@.is_element(e)
}

/// The pairs weighed once element `e` has been scored against its first
/// `k` signatures.
spec fn seen(
    d: &Dom,
    names: Seq<Seq<char>>,
    name: Seq<char>,
    lo: int,
    e: int,
    k: int,
    e2: int,
    k2: int,
) -> bool {
    ||| considered(d, names, name, lo, e, e2, k2)
    ||| (e2 == e && 0 <= k2 < k && names[k2] == name && d@.is_element(e2))
}

/// `cur` is a weighed pair with its score that no weighed pair beats, or
/// there is no weighed pair.
spec fn best_inv<F: Fn(&Comparison) -> ScoreKey>(
    d: &Dom,
    names: Seq<Seq<char>>,
    sigs: Seq<Signature>,
    f: F,
    name: Seq<char>,
    lo: int,
    e: int,
    k: int,
    cur: Option<ScoredElement>,
) -> bool {
    match cur {
        Some(b) => {
            &&& exists|k2: int|
                #[trigger] seen(d, names, name, lo, e, k, b.1 as int, k2) && b.0 == score_of(
                    f,
                    d,
                    &sigs[k2],
                    b.1 as int,
                )
            &&& forall|e2: int, k2: int|
                #[trigger] seen(d, names, name, lo, e, k, e2, k2) ==> !score_gt(
                    score_of(f, d, &sigs[k2], e2),
                    b.0,
                )
        },
        None => forall|e2: int, k2: int| !#[trigger] seen(d, names, name, lo, e, k, e2, k2),
    }
}

proof fn lemma_element_best_inv<F: Fn(&Comparison) -> ScoreKey>(
    d: &Dom,
    names: Seq<Seq<char>>,
    sigs: Seq<Signature>,
    f: F,
    name: Seq<char>,
    lo: int,
    e: int,
    k: int,
    cur: Option<ScoredElement>,
)
    requires
        0 <= lo <= e <= usize::MAX,
        0 <= k <= names.len(),
        best_inv(d, names, sigs, f, name, lo, e, 0, cur),
    ensures
        best_inv(d, names, sigs, f, name, lo, e, k, element_best(d, names, sigs, f, name, e, k, cur)),
    decreases k,
{
    if k > 0 {
        lemma_element_best_inv(d, names, sigs, f, name, lo, e, k - 1, cur);
        let c = element_best(d, names, sigs, f, name, e, k - 1, cur);
        let r = element_best(d, names, sigs, f, name, e, k, cur);
        let s = score_of(f, d, &sigs[k - 1], e);
        if names[k - 1] == name && d@.is_element(e) {
            assert(seen(d, names, name, lo, e, k, e, k - 1));
            match c {
                None => {
                    assert(r == Some(ScoredElement(s, e as usize)));
                    assert forall|e2: int, k2: int| #[trigger]
                        seen(d, names, name, lo, e, k, e2, k2) implies !score_gt(
                        score_of(f, d, &sigs[k2], e2),
                        s,
                    ) by {
                        assert(!seen(d, names, name, lo, e, k - 1, e2, k2));
                    }
                },
                Some(b) => {
                    if score_gt(s, b.0) {
                        assert forall|e2: int, k2: int| #[trigger]
                            seen(d, names, name, lo, e, k, e2, k2) implies !score_gt(
                            score_of(f, d, &sigs[k2], e2),
                            s,
                        ) by {
                            if e2 != e || k2 != k - 1 {
                                assert(seen(d, names, name, lo, e, k - 1, e2, k2));
                            }
                        }
                    } else {
                        let k3 = choose|k3: int|
                            #[trigger] seen(d, names, name, lo, e, k - 1, b.1 as int, k3) && b.0
                                == score_of(f, d, &sigs[k3], b.1 as int);
                        assert(seen(d, names, name, lo, e, k, b.1 as int, k3));
                        assert forall|e2: int, k2: int| #[trigger]
                            seen(d, names, name, lo, e, k, e2, k2) implies !score_gt(
                            score_of(f, d, &sigs[k2], e2),
                            b.0,
                        ) by {
                            if e2 != e || k2 != k - 1 {
                                assert(seen(d, names, name, lo, e, k - 1, e2, k2));
                            }
                        }
                    }
                },
            }
        } else {
            assert forall|e2: int, k2: int|
                #[trigger] seen(d, names, name, lo, e, k, e2, k2) == seen(
                    d,
                    names,
                    name,
                    lo,
                    e,
                    k - 1,
                    e2,
                    k2,
                ) by {}
            if let Some(b) = c {
                let k3 = choose|k3: int|
                    #[trigger] seen(d, names, name, lo, e, k - 1, b.1 as int, k3) && b.0 == score_of(
                        f,
                        d,
                        &sigs[k3],
                        b.1 as int,
                    );
                assert(seen(d, names, name, lo, e, k, b.1 as int, k3));
            }
        }
    }
}

proof fn lemma_best_between_inv<F: Fn(&Comparison) -> ScoreKey>(
    d: &Dom,
    names: Seq<Seq<char>>,
    sigs: Seq<Signature>,
    f: F,
    name: Seq<char>,
    lo: int,
    hi: int,
)
    requires
        0 <= lo,
        hi <= usize::MAX + 1,
    ensures
        best_inv(d, names, sigs, f, name, lo, hi, 0, best_between(d, names, sigs, f, name, lo, hi)),
    decreases hi - lo,
{
    if hi > lo {
        let prev = best_between(d, names, sigs, f, name, lo, hi - 1);
        lemma_best_between_inv(d, names, sigs, f, name, lo, hi - 1);
        lemma_element_best_inv(d, names, sigs, f, name, lo, hi - 1, names.len() as int, prev);
        let r = best_between(d, names, sigs, f, name, lo, hi);
        assert forall|e2: int, k2: int|
            #[trigger] seen(d, names, name, lo, hi, 0, e2, k2) == seen(
                d,
                names,
                name,
                lo,
                hi - 1,
                names.len() as int,
                e2,
                k2,
            ) by {}
        if let Some(b) = r {
            let k3 = choose|k3: int|
                #[trigger] seen(d, names, name, lo, hi - 1, names.len() as int, b.1 as int, k3)
                    && b.0 == score_of(f, d, &sigs[k3], b.1 as int);
            assert(seen(d, names, name, lo, hi, 0, b.1 as int, k3));
        }
    } else {
        assert forall|e2: int, k2: int| !#[trigger] seen(d, names, name, lo, hi, 0, e2, k2) by {}
    }
}

/// The best candidate for `name` in `[lo, hi)` is an element of `[lo, hi)`
/// with its score against some signature named `name`, and no such pair
/// of an element and a signature scores strictly more; there is none
/// exactly where there is no such pair.
pub proof fn lemma_best_is_maximal<F: Fn(&Comparison) -> ScoreKey>(
    d: &Dom,
    names: Seq<Seq<char>>,
    sigs: Seq<Signature>,
    f: F,
    name: Seq<char>,
    lo: int,
    hi: int,
)
    requires
        0 <= lo,
        hi <= usize::MAX + 1,
    ensures
        best_between(d, names, sigs, f, name, lo, hi) matches Some(b) ==> {
            &&& exists|k: int|
                #[trigger] considered(d, names, name, lo, hi, b.1 as int, k) && b.0 == score_of(
                    f,
                    d,
                    &sigs[k],
                    b.1 as int,
                )
            &&& forall|e: int, k: int|
                #[trigger] considered(d, names, name, lo, hi, e, k) ==> !score_gt(
                    score_of(f, d, &sigs[k], e),
                    b.0,
                )
        },
        best_between(d, names, sigs, f, name, lo, hi) is None ==> forall|e: int, k: int|
            !#[trigger] considered(d, names, name, lo, hi, e, k),
{
    lemma_best_between_inv(d, names, sigs, f, name, lo, hi);
    assert forall|e: int, k: int|
        #[trigger] considered(d, names, name, lo, hi, e, k) == seen(d, names, name, lo, hi, 0, e, k) by {}
    if let Some(b) = best_between(d, names, sigs, f, name, lo, hi) {
        let k3 = choose|k3: int|
            #[trigger] seen(d, names, name, lo, hi, 0, b.1 as int, k3) && b.0 == score_of(
                f,
                d,
                &sigs[k3],
                b.1 as int,
            );
        assert(considered(d, names, name, lo, hi, b.1 as int, k3));
    }
}

proof fn lemma_element_matches_exact<F: Fn(&Comparison) -> ScoreKey>(
    d: &Dom,
    names: Seq<Seq<char>>,
    sigs: Seq<Signature>,
    f: F,
    name: Seq<char>,
    e: int,
    k: int,
)
    requires
        0 <= e <= usize::MAX,
        0 <= k <= names.len(),
    ensures
        forall|i: int|
            0 <= i < element_matches(d, names, sigs, f, name, e, k).len() ==> {
                let m = #[trigger] element_matches(d, names, sigs, f, name, e, k)[i];
                &&& m.1 as int == e
                &&& is_match(m.0)
                &&& exists|k2: int|
                    0 <= k2 < k && #[trigger] considered(d, names, name, e, e + 1, e, k2) && m.0
                        == score_of(f, d, &sigs[k2], e)
            },
        forall|k2: int|
            0 <= k2 < k && #[trigger] considered(d, names, name, e, e + 1, e, k2) && is_match(
                score_of(f, d, &sigs[k2], e),
            ) ==> exists|i: int|
                0 <= i < element_matches(d, names, sigs, f, name, e, k).len()
                    && #[trigger] element_matches(d, names, sigs, f, name, e, k)[i] == ScoredElement(
                    score_of(f, d, &sigs[k2], e),
                    e as usize,
                ),
    decreases k,
{
    if k > 0 {
        lemma_element_matches_exact(d, names, sigs, f, name, e, k - 1);
        let a = element_matches(d, names, sigs, f, name, e, k - 1);
        let b = element_matches(d, names, sigs, f, name, e, k);
        let s = score_of(f, d, &sigs[k - 1], e);
        if names[k - 1] == name && d@.is_element(e) && is_match(s) {
            assert(b == a.push(ScoredElement(s, e as usize)));
            assert(considered(d, names, name, e, e + 1, e, k - 1));
        } else {
            assert(b =~= a);
        }
        assert forall|i: int| 0 <= i < b.len() implies {
            let m = #[trigger] b[i];
            &&& m.1 as int == e
            &&& is_match(m.0)
            &&& exists|k2: int|
                0 <= k2 < k && #[trigger] considered(d, names, name, e, e + 1, e, k2) && m.0
                    == score_of(f, d, &sigs[k2], e)
        } by {
            if i < a.len() {
                assert(b[i] == a[i]);
            }
        }
        assert forall|k2: int|
            0 <= k2 < k && #[trigger] considered(d, names, name, e, e + 1, e, k2) && is_match(
                score_of(f, d, &sigs[k2], e),
            ) implies exists|i: int| 0 <= i < b.len() && #[trigger] b[i] == ScoredElement(
                score_of(f, d, &sigs[k2], e),
                e as usize,
            ) by {
            if k2 < k - 1 {
                let i = choose|i: int|
                    0 <= i < a.len() && #[trigger] a[i] == ScoredElement(
                        score_of(f, d, &sigs[k2], e),
                        e as usize,
                    );
                assert(b[i] == a[i]);
            } else {
                assert(b[a.len() as int] == ScoredElement(s, e as usize));
            }
        }
    }
}

/// Each entry of the matches is a weighed pair's element with its score,
/// which is a match.
proof fn lemma_matches_sound<F: Fn(&Comparison) -> ScoreKey>(
    d: &Dom,
    names: Seq<Seq<char>>,
    sigs: Seq<Signature>,
    f: F,
    name: Seq<char>,
    lo: int,
    hi: int,
)
    requires
        0 <= lo,
        hi <= usize::MAX + 1,
    ensures
        forall|i: int|
            0 <= i < matches_between(d, names, sigs, f, name, lo, hi).len() ==> {
                let m = #[trigger] matches_between(d, names, sigs, f, name, lo, hi)[i];
                &&& lo <= m.1 < hi
                &&& is_match(m.0)
                &&& exists|k: int|
                    #[trigger] considered(d, names, name, lo, hi, m.1 as int, k) && m.0 == score_of(
                        f,
                        d,
                        &sigs[k],
                        m.1 as int,
                    )
            },
    decreases hi - lo,
{
    if hi > lo {
        lemma_matches_sound(d, names, sigs, f, name, lo, hi - 1);
        lemma_element_matches_exact(d, names, sigs, f, name, hi - 1, names.len() as int);
        let a = matches_between(d, names, sigs, f, name, lo, hi - 1);
        let b = element_matches(d, names, sigs, f, name, hi - 1, names.len() as int);
        let m = matches_between(d, names, sigs, f, name, lo, hi);
        assert(m == a + b);
        assert forall|i: int| 0 <= i < m.len() implies {
            let x = #[trigger] m[i];
            &&& lo <= x.1 < hi
            &&& is_match(x.0)
            &&& exists|k: int|
                #[trigger] considered(d, names, name, lo, hi, x.1 as int, k) && x.0 == score_of(
                    f,
                    d,
                    &sigs[k],
                    x.1 as int,
                )
        } by {
            if i < a.len() {
                assert(m[i] == a[i]);
                let k = choose|k: int|
                    #[trigger] considered(d, names, name, lo, hi - 1, a[i].1 as int, k) && a[i].0
                        == score_of(f, d, &sigs[k], a[i].1 as int);
                assert(considered(d, names, name, lo, hi, a[i].1 as int, k));
            } else {
                assert(m[i] == b[i - a.len()]);
                let k = choose|k: int|
                    0 <= k < names.len() && #[trigger] considered(
                        d,
                        names,
                        name,
                        hi - 1,
                        hi,
                        hi - 1,
                        k,
                    ) && b[i - a.len()].0 == score_of(f, d, &sigs[k], hi - 1);
                assert(considered(d, names, name, lo, hi, hi - 1, k));
            }
        }
    }
}

/// Each weighed pair whose score is a match has its entry.
proof fn lemma_matches_complete<F: Fn(&Comparison) -> ScoreKey>(
    d: &Dom,
    names: Seq<Seq<char>>,
    sigs: Seq<Signature>,
    f: F,
    name: Seq<char>,
    lo: int,
    hi: int,
)
    requires
        0 <= lo,
        hi <= usize::MAX + 1,
    ensures
        forall|e: int, k: int|
            #[trigger] considered(d, names, name, lo, hi, e, k) && is_match(
                score_of(f, d, &sigs[k], e),
            ) ==> exists|i: int|
                0 <= i < matches_between(d, names, sigs, f, name, lo, hi).len()
                    && #[trigger] matches_between(d, names, sigs, f, name, lo, hi)[i]
                    == ScoredElement(score_of(f, d, &sigs[k], e), e as usize),
    decreases hi - lo,
{
    if hi > lo {
        lemma_matches_complete(d, names, sigs, f, name, lo, hi - 1);
        lemma_element_matches_exact(d, names, sigs, f, name, hi - 1, names.len() as int);
        let a = matches_between(d, names, sigs, f, name, lo, hi - 1);
        let b = element_matches(d, names, sigs, f, name, hi - 1, names.len() as int);
        let m = matches_between(d, names, sigs, f, name, lo, hi);
        assert(m == a + b);
        assert forall|e: int, k: int|
            #[trigger] considered(d, names, name, lo, hi, e, k) && is_match(
                score_of(f, d, &sigs[k], e),
            ) implies exists|i: int| 0 <= i < m.len() && #[trigger] m[i] == ScoredElement(
                score_of(f, d, &sigs[k], e),
                e as usize,
            ) by {
            if e < hi - 1 {
                assert(considered(d, names, name, lo, hi - 1, e, k));
                let i = choose|i: int|
                    0 <= i < a.len() && #[trigger] a[i] == ScoredElement(
                        score_of(f, d, &sigs[k], e),
                        e as usize,
                    );
                assert(m[i] == a[i]);
            } else {
                assert(considered(d, names, name, hi - 1, (hi - 1) + 1, hi - 1, k));
                let j = choose|j: int|
                    0 <= j < b.len() && #[trigger] b[j] == ScoredElement(
                        score_of(f, d, &sigs[k], e),
                        e as usize,
                    );
                assert(m[a.len() + j] == b[j]);
            }
        }
    }
}

/// The matches for `name` in `[lo, hi)` are exactly the pairs of an
/// element of `[lo, hi)` and a signature named `name` whose score is at
/// least 0.75: each entry is such a pair's element with the pair's score,
/// and each such pair has its entry.
pub proof fn lemma_matches_exact<F: Fn(&Comparison) -> ScoreKey>(
    d: &Dom,
    names: Seq<Seq<char>>,
    sigs: Seq<Signature>,
    f: F,
    name: Seq<char>,
    lo: int,
    hi: int,
)
    requires
        0 <= lo,
        hi <= usize::MAX + 1,
    ensures
        forall|i: int|
            0 <= i < matches_between(d, names, sigs, f, name, lo, hi).len() ==> {
                let m = #[trigger] matches_between(d, names, sigs, f, name, lo, hi)[i];
                &&& lo <= m.1 < hi
                &&& is_match(m.0)
                &&& exists|k: int|
                    #[trigger] considered(d, names, name, lo, hi, m.1 as int, k) && m.0 == score_of(
                        f,
                        d,
                        &sigs[k],
                        m.1 as int,
                    )
            },
        forall|e: int, k: int|
            #[trigger] considered(d, names, name, lo, hi, e, k) && is_match(
                score_of(f, d, &sigs[k], e),
            ) ==> exists|i: int|
                0 <= i < matches_between(d, names, sigs, f, name, lo, hi).len()
                    && #[trigger] matches_between(d, names, sigs, f, name, lo, hi)[i]
                    == ScoredElement(score_of(f, d, &sigs[k], e), e as usize),
{
    lemma_matches_sound(d, names, sigs, f, name, lo, hi);
    lemma_matches_complete(d, names, sigs, f, name, lo, hi);
}


/// There is a candidate, and its score is a match.
pub open spec fn is_match_candidate(c: Option<ScoredElement>) -> bool {
    match c {
        Some(b) => is_match(b.0),
        None => false,
    }
}

/// The best candidate and the matches agree: a best candidate that scores
/// at least 0.75 is among the matches; and where some pair is a match and
/// no pair scores NaN, the best candidate is a match (a NaN score is never
/// beaten, so a candidate scored NaN before the matches would stay best).
pub proof fn lemma_best_and_matches<F: Fn(&Comparison) -> ScoreKey>(
    d: &Dom,
    names: Seq<Seq<char>>,
    sigs: Seq<Signature>,
    f: F,
    name: Seq<char>,
    lo: int,
    hi: int,
)
    requires
        0 <= lo,
        hi <= usize::MAX + 1,
    ensures
        is_match_candidate(best_between(d, names, sigs, f, name, lo, hi)) ==> exists|i: int|
            0 <= i < matches_between(d, names, sigs, f, name, lo, hi).len()
                && #[trigger] matches_between(d, names, sigs, f, name, lo, hi)[i] == best_between(
                d,
                names,
                sigs,
                f,
                name,
                lo,
                hi,
            ).unwrap(),
        (forall|e: int, k: int|
            #[trigger] considered(d, names, name, lo, hi, e, k) ==> score_of(f, d, &sigs[k], e) is Some)
            && matches_between(d, names, sigs, f, name, lo, hi).len() > 0 ==> is_match_candidate(
            best_between(d, names, sigs, f, name, lo, hi),
        ),
{
    lemma_best_is_maximal(d, names, sigs, f, name, lo, hi);
    lemma_matches_exact(d, names, sigs, f, name, lo, hi);
    let m = matches_between(d, names, sigs, f, name, lo, hi);
    if let Some(b) = best_between(d, names, sigs, f, name, lo, hi) {
        let k = choose|k: int|
            #[trigger] considered(d, names, name, lo, hi, b.1 as int, k) && b.0 == score_of(
                f,
                d,
                &sigs[k],
                b.1 as int,
            );
        if is_match(b.0) {
            assert(ScoredElement(score_of(f, d, &sigs[k], b.1 as int), (b.1 as int) as usize) == b);
        }
    }
    if (forall|e: int, k: int|
        #[trigger] considered(d, names, name, lo, hi, e, k) ==> score_of(f, d, &sigs[k], e) is Some)
        && m.len() > 0 {
        let x = m[0];
        let k = choose|k: int|
            #[trigger] considered(d, names, name, lo, hi, x.1 as int, k) && x.0 == score_of(
                f,
                d,
                &sigs[k],
                x.1 as int,
            );
        let b = best_between(d, names, sigs, f, name, lo, hi).unwrap();
        let kb = choose|kb: int|
            #[trigger] considered(d, names, name, lo, hi, b.1 as int, kb) && b.0 == score_of(
                f,
                d,
                &sigs[kb],
                b.1 as int,
            );
        assert(!score_gt(score_of(f, d, &sigs[k], x.1 as int), b.0));
        assert(b.0 is Some);
    }
}


/// The matches depend on the document only through its value.
proof fn lemma_element_matches_doms<F: Fn(&Comparison) -> ScoreKey>(
    d1: &Dom,
    d2: &Dom,
    names: Seq<Seq<char>>,
    sigs: Seq<Signature>,
    f: F,
    name: Seq<char>,
    e: int,
    k: int,
)
    requires
        d1@ == d2@,
    ensures
        element_matches(d1, names, sigs, f, name, e, k) == element_matches(d2, names, sigs, f, name, e, k),
    decreases k,
{
    if k > 0 {
        lemma_element_matches_doms(d1, d2, names, sigs, f, name, e, k - 1);
        reveal(score_of);
        assert(score_of(f, d1, &sigs[k - 1], e) == score_of(f, d2, &sigs[k - 1], e));
    }
}

/// The matches depend on the document only through its value.
pub proof fn lemma_matches_doms<F: Fn(&Comparison) -> ScoreKey>(
    d1: &Dom,
    d2: &Dom,
    names: Seq<Seq<char>>,
    sigs: Seq<Signature>,
    f: F,
    name: Seq<char>,
    lo: int,
    hi: int,
)
    requires
        d1@ == d2@,
    ensures
        matches_between(d1, names, sigs, f, name, lo, hi) == matches_between(d2, names, sigs, f, name, lo, hi),
    decreases hi - lo,
{
    if hi > lo {
        lemma_matches_doms(d1, d2, names, sigs, f, name, lo, hi - 1);
        lemma_element_matches_doms(d1, d2, names, sigs, f, name, hi - 1, names.len() as int);
    }
}

} // verus!
