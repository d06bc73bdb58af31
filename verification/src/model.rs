//! Models of pages: the signatures of the fields to extract and of the
//! element that groups them; building a model from a sample page, and
//! extracting the fields of other pages with it.
use vstd::prelude::*;
use vstd::string::StringExecFns;
use crate::dom::{
    Dom, NodeKind, lemma_root_element, lemma_subtree_after, lemma_subtree_depth,
    lemma_subtree_nested, parsed_events, tree_of_events,
};
use crate::score::{
    ScoreKey, ScoredElement, all_wf, best_between, comparison_score, considered, element_best, is_match,
    lemma_best_is_maximal, lemma_matches_exact, score_of, find_best_signature_matches, find_signature_matches,
    has_key, is_scorer, keys_distinct, matches_between, names_field, names_of, sigs_of,
};
use crate::selector::{first_match, select_first, selector_matches};
use crate::compare::{
    Comparison, ComparisonView, page_plain, plain_attrs,
    is_perfect_comparison, lemma_own_signature_perfect,
};
use crate::signature::{Signature, SignatureView, compute_signature, signature_view_of, signature_wf};
use crate::utils::{is_common_element_ancestor, lca};

verus! {

/// Options for normalising the HTML before comparing elements.
pub struct NormalisationOptions {
    pub unwrap_text_tags: bool,
}

/// What a model knows of a field.
pub enum FieldSignature {
    /// The signature of the element holding the field.
    Signature(Signature),
    /// A nested model, for a field made of several fields.
    Submodel(Model),
}

/// A model of a page.
pub struct Model {
    /// Options for normalising the HTML.
    pub normalisation: NormalisationOptions,
    /// Signature of the lowest common ancestor of the fields' elements.
    pub group_signature: Signature,
    /// Signatures of the fields of this model, by field name.
    pub field_signatures: Vec<(String, FieldSignature)>,
}

/// How to find a field in a sample page.
pub enum FieldSelector {
    /// A CSS selector for the field's element.
    Selector(String),
    /// A CSS selector for the field's element, and a regular expression
    /// that the text of a matching element must contain.
    Field { selector: String, regex: Option<String> },
    /// Selectors of the fields of a nested model.
    Submodel(FieldSelectors),
}

/// How to find a field in a sample page.
pub type FieldSpec = FieldSelector;

/// Field selectors by field name.
pub type FieldSelectors = Vec<(String, FieldSelector)>;

/// The characters of an optional string.
pub open spec fn opt_chars(r: Option<String>) -> Option<Seq<char>> {
    match r {
        Some(p) => Some(p@),
        None => None,
    }
}

/// The CSS selector and the regular expression of a field held by one
/// element; none for a nested model.
pub open spec fn element_field(sel: FieldSelector) -> Option<(Seq<char>, Option<Seq<char>>)> {
    match sel {
        FieldSelector::Selector(s) => Some((s@, None)),
        FieldSelector::Field { selector, regex } => Some((selector@, opt_chars(regex))),
        FieldSelector::Submodel(_) => None,
    }
}

/// A signature with its regular expression replaced.
pub open spec fn with_regex(v: SignatureView, regex: Option<Seq<char>>) -> SignatureView {
    SignatureView {
        tag_name: v.tag_name,
        attrs: v.attrs,
        depth: v.depth,
        has_children: v.has_children,
        index_in_parent: v.index_in_parent,
        text_len: v.text_len,
        regex,
        weights: v.weights,
        meta: v.meta,
    }
}

/// A field's signature is well formed, or its nested model is.
pub open spec fn field_wf(fs: FieldSignature) -> bool
    decreases fs,
{
    match fs {
        FieldSignature::Signature(s) => signature_wf(s@),
        FieldSignature::Submodel(m) => model_wf(m),
    }
}

/// A model holds at most one field of each name, at every level, and well
/// formed signatures, as the maps it stands for do.
pub open spec fn model_wf(m: Model) -> bool
    decreases m,
{
    &&& signature_wf(m.group_signature@)
    &&& keys_distinct(m.field_signatures@)
    &&& forall|i: int|
        0 <= i < m.field_signatures@.len() ==> field_wf((#[trigger] m.field_signatures@[i]).1)
}

/// Field selectors hold at most one selector of each name, at every level,
/// as the maps they stand for do.
pub open spec fn selectors_wf(sels: Seq<(String, FieldSelector)>) -> bool
    decreases sels,
{
    &&& keys_distinct(sels)
    &&& forall|i: int|
        0 <= i < sels.len() ==> match (#[trigger] sels[i]).1 {
            FieldSelector::Submodel(sub) => selectors_wf(sub@),
            _ => true,
        }
}

/// The signature that stands for a field when elements are compared to it.
pub open spec fn target_of(fs: FieldSignature) -> Signature {
    match fs {
        FieldSignature::Signature(s) => s,
        FieldSignature::Submodel(m) => m.group_signature,
    }
}

/// The names of the fields.
pub open spec fn field_names(fields: Seq<(String, FieldSignature)>) -> Seq<Seq<char>> {
    fields.map_values(|p: (String, FieldSignature)| p.0@)
}

/// The signatures that stand for the fields.
pub open spec fn field_targets(fields: Seq<(String, FieldSignature)>) -> Seq<Signature> {
    fields.map_values(|p: (String, FieldSignature)| target_of(p.1))
}

/// The best match for field `name` below `root`.
pub open spec fn best_of<F: Fn(&Comparison) -> ScoreKey>(
    d: &Dom,
    fields: Seq<(String, FieldSignature)>,
    f: F,
    root: int,
    name: Seq<char>,
) -> Option<ScoredElement> {
    best_between(d, field_names(fields), field_targets(fields), f, name, root, d@.ends[root])
}

/// `a` is an element above the best match of every field, and some field
/// has a best match.
pub open spec fn is_group_candidate<F: Fn(&Comparison) -> ScoreKey>(
    d: &Dom,
    fields: Seq<(String, FieldSignature)>,
    f: F,
    root: int,
    a: int,
) -> bool {
    &&& exists|i: int| 0 <= i < fields.len() && (#[trigger] best_of(d, fields, f, root, fields[i].0@)) is Some
    &&& forall|i: int|
        0 <= i < fields.len() ==> (#[trigger] best_of(d, fields, f, root, fields[i].0@) matches Some(b)
            ==> d@.is_element_ancestor(a, b.1 as int))
}

/// `a` is the deepest group candidate.
pub open spec fn is_group_parent<F: Fn(&Comparison) -> ScoreKey>(
    d: &Dom,
    fields: Seq<(String, FieldSignature)>,
    f: F,
    root: int,
    a: int,
) -> bool {
    &&& is_group_candidate(d, fields, f, root, a)
    &&& forall|b: int| #[trigger] is_group_candidate(d, fields, f, root, b) ==> d@.depth(b) <= d@.depth(a)
}

/// Error message for a selector that matches nothing.
pub open spec fn not_found_message(field: Seq<char>, selector: Seq<char>) -> Seq<char> {
    "Could not find element for field "@ + field + " using selector "@ + selector
}

/// Error message for fields that share no group.
pub open spec fn no_group_message() -> Seq<char> {
    "Could not find group for all elements."@
}

/// `fs` is what generation builds for the field selected by `sel`.
pub open spec fn field_generated<F: Fn(&Comparison) -> ScoreKey>(
    d: &Dom,
    root: int,
    sel: FieldSelector,
    f: F,
    fs: FieldSignature,
) -> bool
    decreases sel,
{
    match sel {
        FieldSelector::Submodel(sub) => fs matches FieldSignature::Submodel(m) && model_generated(d,
            root,
            sub@,
            f,
            m,
        ),
        _ => match element_field(sel) {
            Some((s, re)) => match selector_matches(d.source_text(), s, root) {
                Ok(flags) => match first_match(d@, flags, root + 1, d@.ends[root]) {
                    Some(el) => fs matches FieldSignature::Signature(sig) && sig@ == with_regex(
                        signature_view_of(d@, el),
                        re,
                    ),
                    None => false,
                },
                Err(_) => false,
            },
            None => false,
        },
    }
}

/// `fields` is what generation builds for the first `k` fields of `sels`.
pub open spec fn fields_generated<F: Fn(&Comparison) -> ScoreKey>(
    d: &Dom,
    root: int,
    sels: Seq<(String, FieldSelector)>,
    f: F,
    fields: Seq<(String, FieldSignature)>,
    k: int,
) -> bool
    decreases sels, 0int,
{
    &&& fields.len() == k
    &&& k <= sels.len()
    &&& forall|i: int|
        0 <= i < k ==> (#[trigger] fields[i]).0@ == sels[i].0@ && field_generated(d,
            root,
            sels[i].1,
            f,
            fields[i].1,
        )
}

/// `m` is the model that generation builds from the field selectors `sels`.
pub open spec fn model_generated<F: Fn(&Comparison) -> ScoreKey>(
    d: &Dom,
    root: int,
    sels: Seq<(String, FieldSelector)>,
    f: F,
    m: Model,
) -> bool
    decreases sels, 1int,
{
    let fields = m.field_signatures@;
    &&& fields_generated(d, root, sels, f, fields, sels.len() as int)
    &&& m.normalisation.unwrap_text_tags == false
    &&& exists|a: int|
        is_group_parent(d, fields, f, root, a) && #[trigger] signature_view_of(d@, a)
            == m.group_signature@
}


/// Generation fails on field `sel` named `name` with message `err`.
pub open spec fn field_error<F: Fn(&Comparison) -> ScoreKey>(
    d: &Dom,
    root: int,
    name: Seq<char>,
    sel: FieldSelector,
    f: F,
    err: Seq<char>,
) -> bool
    decreases sel,
{
    match sel {
        FieldSelector::Submodel(sub) => model_error(d, root, sub@, f, err),
        _ => match element_field(sel) {
            Some((s, _)) => match selector_matches(d.source_text(), s, root) {
                Err(msg) => err == msg,
                Ok(flags) => first_match(d@, flags, root + 1, d@.ends[root]) is None && err
                    == not_found_message(name, s),
            },
            None => false,
        },
    }
}

/// Generation from the field selectors `sels` fails with message `err`:
/// the first field that cannot be built gives the error, and where all
/// can, the fields must share a group.
pub open spec fn model_error<F: Fn(&Comparison) -> ScoreKey>(
    d: &Dom,
    root: int,
    sels: Seq<(String, FieldSelector)>,
    f: F,
    err: Seq<char>,
) -> bool
    decreases sels,
{
    ||| exists|k: int, fields: Seq<(String, FieldSignature)>|
        0 <= k < sels.len() && #[trigger] fields_generated(d, root, sels, f, fields, k)
            && field_error(d, root, sels[k].0@, sels[k].1, f, err)
    ||| exists|fields: Seq<(String, FieldSignature)>|
        #[trigger] fields_generated(d, root, sels, f, fields, sels.len() as int) && (forall|
            a: int,
        | !#[trigger] is_group_candidate(d, fields, f, root, a)) && err == no_group_message()
}

/// Builds a model of the page below `root` from selectors of its fields:
/// the signature of the element that each selector picks, and the
/// signature of the element that groups the best matches of all fields.
pub fn generate_model<F: Fn(&Comparison) -> ScoreKey>(
    dom: &Dom,
    root: usize,
    selectors: &FieldSelectors,
    score: &F,
) -> (r: Result<Model, String>)
    requires
        dom@.wf(),
        root < dom@.n(),
        is_scorer(*score),
        selectors_wf(selectors@),
    ensures
        match r {
            Ok(m) => model_generated(dom, root as int, selectors@, *score, m) && model_wf(m),
            Err(e) => model_error(dom, root as int, selectors@, *score, e@),
        },
    decreases selectors@,
{
    let mut fields: Vec<(String, FieldSignature)> = Vec::new();
    let mut i: usize = 0;
    while i < selectors.len()
        invariant
            dom@.wf(),
            root < dom@.n(),
            is_scorer(*score),
            i <= selectors@.len(),
            fields_generated(dom, root as int, selectors@, *score, fields@, i as int),
            selectors_wf(selectors@),
            forall|j: int| 0 <= j < i ==> field_wf((#[trigger] fields@[j]).1),
        decreases selectors.len() - i,
    {
        let entry = &selectors[i];
        let field = &entry.0;
        assert(selectors@[i as int] == *entry);
        let fs = match &entry.1 {
            FieldSelector::Submodel(sub) => {
                proof {
                    assert(decreases_to!(selectors@ => sub@));
                }
                match generate_model(dom, root, sub, score) {
                    Err(msg) => {
                        proof {
                            assert(field_error(dom, root as int, field@, entry.1, *score, msg@));
                            assert(model_error(dom, root as int, selectors@, *score, msg@));
                        }
                        return Err(msg);
                    },
                    Ok(m) => FieldSignature::Submodel(m),
                }
            },
            other => {
                let (s, re): (&String, Option<&String>) = match other {
                    FieldSelector::Selector(s) => (s, None),
                    FieldSelector::Field { selector, regex } => (
                        selector,
                        match regex {
                            Some(r) => Some(r),
                            None => None,
                        },
                    ),
                    FieldSelector::Submodel(_) => vstd::pervasive::unreached(),
                };
                assert(element_field(entry.1) == Some((s@, match re {
                    Some(r) => Some(r@),
                    None => None::<Seq<char>>,
                })));
                match select_first(dom, root, s.as_str()) {
                    Err(msg) => {
                        proof {
                            assert(field_error(dom, root as int, field@, entry.1, *score, msg@));
                            assert(model_error(dom, root as int, selectors@, *score, msg@));
                        }
                        return Err(msg);
                    },
                    Ok(None) => {
                        let mut msg = String::from_str("Could not find element for field ");
                        msg.append(field.as_str());
                        msg.append(" using selector ");
                        msg.append(s.as_str());
                        proof {
                            assert(field_error(dom, root as int, field@, entry.1, *score, msg@));
                            assert(model_error(dom, root as int, selectors@, *score, msg@));
                        }
                        return Err(msg);
                    },
                    Ok(Some(el)) => {
                        let mut sig = compute_signature(dom, el);
                        sig.regex = match re {
                            Some(r) => Some(r.clone()),
                            None => None,
                        };
                        assert(sig@ =~= with_regex(signature_view_of(dom@, el as int), element_field(entry.1)->Some_0.1));
                        FieldSignature::Signature(sig)
                    },
                }
            },
        };
        let ghost old_fields = fields@;
        fields.push((field.clone(), fs));
        proof {
            assert(field_generated(dom, root as int, selectors@[i as int].1, *score, fields@[i as int].1));
            assert forall|j: int| 0 <= j < i + 1 implies (#[trigger] fields@[j]).0@ == selectors@[j].0@
                && field_generated(dom, root as int, selectors@[j].1, *score, fields@[j].1) by {
                if j < i {
                    assert(fields@[j] == old_fields[j]);
                }
            }
            assert forall|j: int| 0 <= j < i + 1 implies field_wf((#[trigger] fields@[j]).1) by {
                if j < i {
                    assert(fields@[j] == old_fields[j]);
                }
            }
        }
        i = i + 1;
    }
    let mut list: Vec<(&str, &Signature)> = Vec::new();
    let mut j: usize = 0;
    while j < fields.len()
        invariant
            j <= fields@.len(),
            list@.len() == j,
            forall|x: int| 0 <= x < j ==> (#[trigger] list@[x]).0@ == fields@[x].0@ && *list@[x].1
                == target_of(fields@[x].1),
            forall|x: int| 0 <= x < fields@.len() ==> field_wf((#[trigger] fields@[x]).1),
            all_wf(list@),
        decreases fields.len() - j,
    {
        let entry = &fields[j];
        let target: &Signature = match &entry.1 {
            FieldSignature::Signature(sig) => sig,
            FieldSignature::Submodel(m) => &m.group_signature,
        };
        let ghost before = list@;
        assert(field_wf(fields@[j as int].1));
        list.push((entry.0.as_str(), target));
        assert forall|k: int| 0 <= k < list@.len() implies signature_wf((#[trigger] list@[k]).1@) by {
            if k < before.len() {
                assert(list@[k] == before[k]);
            }
        }
        j = j + 1;
    }
    proof {
        assert(names_of(list@) =~= field_names(fields@));
        assert(sigs_of(list@) =~= field_targets(fields@));
    }
    let best = find_best_signature_matches(dom, root, list.as_slice(), score);
    let mut els: Vec<usize> = Vec::new();
    let mut j: usize = 0;
    while j < best.len()
        invariant
            j <= best@.len(),
            els@.len() == j,
            forall|x: int| 0 <= x < j ==> #[trigger] els@[x] == best@[x].1.1,
        decreases best.len() - j,
    {
        els.push(best[j].1.1);
        j = j + 1;
    }
    let n = dom.len();
    proof {
        lemma_group_candidates(dom, fields@, list@, best@, els@, *score, root as int);
        assert forall|x: int| 0 <= x < els@.len() implies #[trigger] els@[x] < dom@.n() by {
            assert(best_between(dom, names_of(list@), sigs_of(list@), *score, best@[x].0@, root as int, dom@.ends[root as int]) == Some(best@[x].1));
            crate::score::lemma_best_is_maximal(dom, names_of(list@), sigs_of(list@), *score, best@[x].0@, root as int, dom@.ends[root as int]);
        }
    }
    match lca(dom, els.as_slice()) {
        None => {
            let msg = String::from_str("Could not find group for all elements.");
            proof {
                assert(fields_generated(dom, root as int, selectors@, *score, fields@, selectors@.len() as int));
                assert(model_error(dom, root as int, selectors@, *score, msg@));
            }
            Err(msg)
        },
        Some(a) => {
            assert(dom@.is_element_ancestor(a as int, els@[0] as int));
            let group_signature = compute_signature(dom, a);
            let m = Model {
                normalisation: NormalisationOptions { unwrap_text_tags: false },
                group_signature,
                field_signatures: fields,
            };
            proof {
                assert(is_group_parent(dom, m.field_signatures@, *score, root as int, a as int));
                assert forall|x: int, y: int| 0 <= x < y < m.field_signatures@.len() implies (
                #[trigger] m.field_signatures@[x]).0@ != (#[trigger] m.field_signatures@[y]).0@ by {
                    assert(selectors@[x].0@ != selectors@[y].0@);
                }
            }
            Ok(m)
        },
    }
}

/// Builds a model from the HTML text of a sample page and selectors of its
/// fields, below the page's root element.
pub fn generate_model_str<F: Fn(&Comparison) -> ScoreKey>(
    html: &str,
    selectors: &FieldSelectors,
    score: &F,
) -> (r: Result<Model, String>)
    requires
        is_scorer(*score),
        selectors_wf(selectors@),
    ensures
        generated_from_html(html@, selectors@, *score, r),
        r matches Ok(m) ==> model_wf(m),
{
    let dom = Dom::parse(html);
    let r = match dom.root_element() {
        None => {
            let e = String::from_str("html node missing");
            assert(e@ == "html node missing"@);
            Err(e)
        },
        Some(root) => generate_model(&dom, root, selectors, score),
    };
    assert(dom@ == tree_of_events(parsed_events(html@)) && dom@.wf() && dom@.kinds[0] == NodeKind::Other
        && dom.source_text() == html@ && match dom@.root_element() {
                None => r matches Err(e) && e@ == "html node missing"@,
                Some(root) => generated(&dom, root, selectors@, *score, r),
            });
    r
}

/// What was found for a field.
pub enum MatchValue {
    /// The element that matches a field best.
    Element(usize),
    /// The fields found in one group, by name.
    Group(Vec<(String, Option<MatchValue>)>),
    /// The groups found for a nested model.
    List(Vec<MatchValue>),
}

/// Scores of what was found in one group.
pub struct GroupScore {
    /// Score of the group element against the model's group signature.
    pub score: ScoreKey,
    /// Scores of the fields, by name.
    pub fields: Vec<(String, Option<MatchScore>)>,
}

/// Score of what was found for a field.
pub enum MatchScore {
    /// Score of the element that matches the field best.
    Element(ScoreKey),
    /// Scores of one group.
    Group(GroupScore),
    /// Scores of the groups found for a nested model.
    List(Vec<MatchScore>),
}

/// Result of an extraction: for each group found, its fields and their scores.
pub struct ExtractResult {
    /// Scores of the groups, in document order of the group elements.
    pub scores: Vec<MatchScore>,
    /// Fields of the groups, in the same order.
    pub data: Vec<MatchValue>,
}

/// Error message for a page where no element matches the model's group.
pub open spec fn no_model_group_message() -> Seq<char> {
    "could not find model group"@
}

/// The elements of the page that match the group signature of `m`.
pub open spec fn group_matches<F: Fn(&Comparison) -> ScoreKey>(
    d: &Dom,
    m: Model,
    f: F,
) -> Seq<ScoredElement> {
    let re = d@.root_element().unwrap();
    matches_between(d, seq!["root"@], seq![m.group_signature], f, "root"@, re, d@.ends[re])
}

/// The fields of a model that are signatures, with their names.
pub open spec fn signature_fields(fields: Seq<(String, FieldSignature)>) -> Seq<(Seq<char>, Signature)>
    decreases fields.len(),
{
    if fields.len() == 0 {
        seq![]
    } else {
        let rest = signature_fields(fields.drop_last());
        match fields.last().1 {
            FieldSignature::Signature(sig) => rest.push((fields.last().0@, sig)),
            FieldSignature::Submodel(_) => rest,
        }
    }
}

/// The names of named signatures.
pub open spec fn pair_names(p: Seq<(Seq<char>, Signature)>) -> Seq<Seq<char>> {
    p.map_values(|x: (Seq<char>, Signature)| x.0)
}

/// The signatures of named signatures.
pub open spec fn pair_sigs(p: Seq<(Seq<char>, Signature)>) -> Seq<Signature> {
    p.map_values(|x: (Seq<char>, Signature)| x.1)
}

/// `r` is what extraction with model `m` gives.
pub open spec fn extracted<F: Fn(&Comparison) -> ScoreKey>(
    d: &Dom,
    m: Model,
    f: F,
    r: Result<ExtractResult, String>,
) -> bool
    decreases m, 3int,
{
    let gm = group_matches(d, m, f);
    match r {
        Err(e) => gm.len() == 0 && e@ == no_model_group_message(),
        Ok(res) => {
            &&& gm.len() > 0
            &&& res.data@.len() == gm.len()
            &&& res.scores@.len() == gm.len()
            &&& forall|i: int|
                0 <= i < gm.len() ==> group_found(d, m, f, #[trigger] gm[i], res.data@[i], res.scores@[i])
        },
    }
}

/// `v` and `s` are what extraction with `m` finds in the group element of `g`.
pub open spec fn group_found<F: Fn(&Comparison) -> ScoreKey>(
    d: &Dom,
    m: Model,
    f: F,
    g: ScoredElement,
    v: MatchValue,
    s: MatchScore,
) -> bool
    decreases m, 2int,
{
    let sf = signature_fields(m.field_signatures@);
    let names = pair_names(sf);
    let sigs = pair_sigs(sf);
    let el = g.1 as int;
    &&& v matches MatchValue::Group(vals)
    &&& s matches MatchScore::Group(gs)
    &&& gs.score == g.0
    &&& vals@.len() == gs.fields@.len()
    &&& exists|n1: int|
        0 <= n1 <= vals@.len() && {
            &&& forall|i: int|
                0 <= i < n1 ==> {
                    &&& names_contain(names, (#[trigger] vals@[i]).0@)
                    &&& best_between(d, names, sigs, f, vals@[i].0@, el, d@.ends[el]) matches Some(b)
                        && vals@[i].1 == Some(MatchValue::Element(b.1)) && gs.fields@[i].1 == Some(
                        MatchScore::Element(b.0),
                    )
                    &&& gs.fields@[i].0@ == vals@[i].0@
                }
            &&& keys_distinct(vals@.take(n1))
            &&& forall|name: Seq<char>|
                names_contain(names, name) && (#[trigger] best_between(d, names, sigs, f, name, el, d@.ends[el])) is Some
                    ==> has_key(vals@.take(n1), name)
            &&& submodels_found(d, m.field_signatures@, f, vals@.skip(n1), gs.fields@.skip(n1))
        }
}

/// `names` holds `name`.
pub open spec fn names_contain(names: Seq<Seq<char>>, name: Seq<char>) -> bool {
    exists|k: int| 0 <= k < names.len() && names[k] == name
}

/// For each submodel field of `fields`, in order, `vals` and `scs` hold what
/// extraction with the submodel gives.
pub open spec fn submodels_found<F: Fn(&Comparison) -> ScoreKey>(
    d: &Dom,
    fields: Seq<(String, FieldSignature)>,
    f: F,
    vals: Seq<(String, Option<MatchValue>)>,
    scs: Seq<(String, Option<MatchScore>)>,
) -> bool
    decreases fields, 0int,
{
    if fields.len() == 0 {
        vals.len() == 0 && scs.len() == 0
    } else {
        let last = fields[fields.len() - 1];
        match last.1 {
            FieldSignature::Submodel(sub) => {
                &&& vals.len() > 0
                &&& scs.len() > 0
                &&& vals.last().0@ == last.0@
                &&& scs.last().0@ == last.0@
                &&& submodel_found(d, sub, f, vals.last().1, scs.last().1)
                &&& submodels_found(d, fields.drop_last(), f, vals.drop_last(), scs.drop_last())
            },
            FieldSignature::Signature(_) => submodels_found(d, fields.drop_last(), f, vals, scs),
        }
    }
}

/// `v` and `s` stand for what extraction with `sub` gives: nothing where it
/// fails, the list of its groups where it succeeds.
pub open spec fn submodel_found<F: Fn(&Comparison) -> ScoreKey>(
    d: &Dom,
    sub: Model,
    f: F,
    v: Option<MatchValue>,
    s: Option<MatchScore>,
) -> bool
    decreases sub, 4int,
{
    match v {
        None => s is None && group_matches(d, sub, f).len() == 0,
        Some(MatchValue::List(data)) => s matches Some(MatchScore::List(scores)) && extracted(
            d,
            sub,
            f,
            Ok(ExtractResult { scores, data }),
        ),
        _ => false,
    }
}

/// What extraction finds in one group element.
fn extract_group<F: Fn(&Comparison) -> ScoreKey>(
    model: &Model,
    dom: &Dom,
    score: &F,
    sig_list: &Vec<(&str, &Signature)>,
    g: ScoredElement,
) -> (r: (MatchValue, MatchScore))
    requires
        dom@.wf(),
        dom@.root_element() is Some,
        is_scorer(*score),
        model_wf(*model),
        g.1 < dom@.n(),
        all_wf(sig_list@),
        names_of(sig_list@) == pair_names(signature_fields(model.field_signatures@)),
        sigs_of(sig_list@) == pair_sigs(signature_fields(model.field_signatures@)),
    ensures
        group_found(dom, *model, *score, g, r.0, r.1),
    decreases model, 0int,
{
    let ghost sf = signature_fields(model.field_signatures@);
    let ghost names = pair_names(sf);
    let ghost sigs = pair_sigs(sf);
    let el = g.1;
    let best = find_best_signature_matches(dom, el, sig_list.as_slice(), score);
    let mut vals: Vec<(String, Option<MatchValue>)> = Vec::new();
    let mut scs: Vec<(String, Option<MatchScore>)> = Vec::new();
    let mut i: usize = 0;
    while i < best.len()
        invariant
            i <= best@.len(),
            vals@.len() == i,
            scs@.len() == i,
            forall|x: int|
                0 <= x < i ==> (#[trigger] vals@[x]).0@ == best@[x].0@ && vals@[x].1 == Some(
                    MatchValue::Element(best@[x].1.1),
                ) && scs@[x].0@ == best@[x].0@ && scs@[x].1 == Some(MatchScore::Element(best@[x].1.0)),
        decreases best.len() - i,
    {
        let entry = &best[i];
        vals.push((entry.0.clone(), Some(MatchValue::Element(entry.1.1))));
        scs.push((entry.0.clone(), Some(MatchScore::Element(entry.1.0))));
        i = i + 1;
    }
    let n1 = vals.len();
    proof {
        let t = vals@.take(n1 as int);
        assert forall|x: int, y: int| 0 <= x < y < t.len() implies (#[trigger] t[x]).0@ != (
        #[trigger] t[y]).0@ by {
            assert(best@[x].0@ != best@[y].0@);
        }
        assert forall|name: Seq<char>|
            names_contain(names, name) && (#[trigger] best_between(dom, names, sigs, *score, name, el as int, dom@.ends[el as int])) is Some
                implies has_key(t, name) by {
            let k = choose|k: int| 0 <= k < names.len() && names[k] == name;
            assert(names_field(sig_list@, name)) by {
                assert(names_of(sig_list@)[k] == sig_list@[k].0@);
            }
            assert(has_key(best@, name));
            let x = choose|x: int| 0 <= x < best@.len() && (#[trigger] best@[x]).0@ == name;
            assert(t[x].0@ == name);
        }
        assert forall|x: int| 0 <= x < n1 implies names_contain(names, (#[trigger] vals@[x]).0@) by {
            assert(names_field(sig_list@, best@[x].0@));
            let k = choose|k: int| 0 <= k < sig_list@.len() && (#[trigger] sig_list@[k]).0@ == best@[x].0@;
            assert(names[k] == sig_list@[k].0@);
        }
    }
    let ghost fields = model.field_signatures@;
    let ghost pv = vals@;
    let ghost ps = scs@;
    let mut j: usize = 0;
    assert(vals@.take(n1 as int) =~= pv);
    assert(scs@.take(n1 as int) =~= ps);
    assert(vals@.skip(n1 as int) =~= seq![]);
    assert(scs@.skip(n1 as int) =~= seq![]);
    assert(fields.take(0) =~= seq![]);
    while j < model.field_signatures.len()
        invariant
            dom@.wf(),
            dom@.root_element() is Some,
            is_scorer(*score),
            fields == model.field_signatures@,
            model_wf(*model),
            j <= fields.len(),
            n1 <= vals@.len(),
            vals@.len() == scs@.len(),
            vals@.take(n1 as int) == pv,
            scs@.take(n1 as int) == ps,
            submodels_found(dom, fields.take(j as int), *score, vals@.skip(n1 as int), scs@.skip(n1 as int)),
        decreases fields.len() - j,
    {
        let ghost before_v = vals@;
        let ghost before_s = scs@;
        let entry = &model.field_signatures[j];
        proof {
            assert(fields.take(j + 1).drop_last() =~= fields.take(j as int));
            assert(fields.take(j + 1)[j as int] == fields[j as int]);
        }
        match &entry.1 {
            FieldSignature::Submodel(m) => {
                proof {
                    assert(decreases_to!(*model => *m));
                }
                assert(field_wf(fields[j as int].1));
                let r = extract_fields(m, dom, score);
                match r {
                    Ok(res) => {
                        proof {
                            assert(submodel_found(dom, *m, *score, Some(MatchValue::List(res.data)), Some(MatchScore::List(res.scores))));
                        }
                        vals.push((entry.0.clone(), Some(MatchValue::List(res.data))));
                        scs.push((entry.0.clone(), Some(MatchScore::List(res.scores))));
                    },
                    Err(e) => {
                        proof {
                            assert(submodel_found(dom, *m, *score, None, None));
                        }
                        vals.push((entry.0.clone(), None));
                        scs.push((entry.0.clone(), None));
                    },
                }
                proof {
                    assert(vals@.skip(n1 as int).drop_last() =~= before_v.skip(n1 as int));
                    assert(scs@.skip(n1 as int).drop_last() =~= before_s.skip(n1 as int));
                    assert(vals@.take(n1 as int) =~= before_v.take(n1 as int));
                    assert(scs@.take(n1 as int) =~= before_s.take(n1 as int));
                }
            },
            FieldSignature::Signature(_) => {},
        }
        j = j + 1;
    }
    assert(fields.take(fields.len() as int) =~= fields);
    proof {
        assert forall|x: int| 0 <= x < n1 implies #[trigger] vals@[x] == pv[x] && scs@[x] == ps[x] by {
            assert(vals@.take(n1 as int)[x] == vals@[x]);
            assert(scs@.take(n1 as int)[x] == scs@[x]);
        }
    }
    let gs = GroupScore { score: g.0, fields: scs };
    let v = MatchValue::Group(vals);
    let sc = MatchScore::Group(gs);
    (v, sc)
}

/// Extracts the fields of a page with a model: the elements that match the
/// model's group signature are the groups; in each, the best match of each
/// signature field, and the extraction of each submodel from the whole page.
pub fn extract_fields<F: Fn(&Comparison) -> ScoreKey>(
    model: &Model,
    dom: &Dom,
    score: &F,
) -> (r: Result<ExtractResult, String>)
    requires
        dom@.wf(),
        dom@.root_element() is Some,
        is_scorer(*score),
        model_wf(*model),
    ensures
        extracted(dom, *model, *score, r),
    decreases model, 1int,
{
    let re = match dom.root_element() {
        Some(x) => x,
        None => vstd::pervasive::unreached(),
    };
    let mut group_sigs: Vec<(&str, &Signature)> = Vec::new();
    group_sigs.push(("root", &model.group_signature));
    proof {
        assert(names_of(group_sigs@) =~= seq!["root"@]);
        assert(sigs_of(group_sigs@) =~= seq![model.group_signature]);
    }
    let groups = find_signature_matches(dom, re, group_sigs.as_slice(), score);
    let ghost gm = group_matches(dom, *model, *score);
    if groups.len() == 0 {
        proof {
            if gm.len() > 0 {
                assert(names_field(group_sigs@, "root"@)) by {
                    assert(group_sigs@[0].0@ == "root"@);
                }
                assert(has_key(groups@, "root"@));
            }
        }
        return Err(String::from_str("could not find model group"));
    }
    proof {
        assert(names_field(group_sigs@, groups@[0].0@));
        assert(groups@[0].0@ == "root"@);
    }
    let root_list = &groups[0].1;
    assert(root_list@ == gm);
    let n = dom.len();
    proof {
        crate::score::lemma_matches_exact(dom, seq!["root"@], seq![model.group_signature], *score, "root"@, re as int, dom@.ends[re as int]);
        assert forall|x: int| 0 <= x < gm.len() implies re <= (#[trigger] gm[x]).1 < dom@.ends[re as int] by {
            assert(gm[x] == matches_between(dom, seq!["root"@], seq![model.group_signature], *score, "root"@, re as int, dom@.ends[re as int])[x]);
        }
    }
    // the fields that are signatures, with their names
    let mut sig_list: Vec<(&str, &Signature)> = Vec::new();
    let ghost fields = model.field_signatures@;
    let mut j: usize = 0;
    while j < model.field_signatures.len()
        invariant
            fields == model.field_signatures@,
            model_wf(*model),
            all_wf(sig_list@),
            j <= fields.len(),
            names_of(sig_list@) == pair_names(signature_fields(fields.take(j as int))),
            sigs_of(sig_list@) == pair_sigs(signature_fields(fields.take(j as int))),
        decreases fields.len() - j,
    {
        let entry = &model.field_signatures[j];
        let ghost before = sig_list@;
        proof {
            assert(fields.take(j + 1).drop_last() =~= fields.take(j as int));
            assert(fields.take(j + 1)[j as int] == fields[j as int]);
        }
        match &entry.1 {
            FieldSignature::Signature(sig) => {
                assert(field_wf(fields[j as int].1));
                sig_list.push((entry.0.as_str(), sig));
                proof {
                    assert forall|k: int| 0 <= k < sig_list@.len() implies signature_wf(
                        (#[trigger] sig_list@[k]).1@,
                    ) by {
                        if k < before.len() {
                            assert(sig_list@[k] == before[k]);
                        }
                    }
                    assert(names_of(sig_list@) =~= names_of(before).push(entry.0@));
                    assert(sigs_of(sig_list@) =~= sigs_of(before).push(*sig));
                    let sf = signature_fields(fields.take(j as int));
                    assert(pair_names(sf.push((entry.0@, *sig))) =~= pair_names(sf).push(entry.0@));
                    assert(pair_sigs(sf.push((entry.0@, *sig))) =~= pair_sigs(sf).push(*sig));
                }
            },
            FieldSignature::Submodel(_) => {},
        }
        j = j + 1;
    }
    assert(fields.take(fields.len() as int) =~= fields);
    let mut data: Vec<MatchValue> = Vec::new();
    let mut scores: Vec<MatchScore> = Vec::new();
    let mut i: usize = 0;
    while i < root_list.len()
        invariant
            dom@.wf(),
            dom@.root_element() is Some,
            is_scorer(*score),
            root_list@ == gm,
            gm == group_matches(dom, *model, *score),
            model_wf(*model),
            all_wf(sig_list@),
            re < dom@.n(),
            dom@.ends[re as int] <= dom@.n(),
            forall|x: int| 0 <= x < gm.len() ==> re <= (#[trigger] gm[x]).1 < dom@.ends[re as int],
            names_of(sig_list@) == pair_names(signature_fields(model.field_signatures@)),
            sigs_of(sig_list@) == pair_sigs(signature_fields(model.field_signatures@)),
            i <= gm.len(),
            data@.len() == i,
            scores@.len() == i,
            forall|x: int| 0 <= x < i ==> group_found(dom, *model, *score, #[trigger] gm[x], data@[x], scores@[x]),
        decreases root_list.len() - i,
    {
        let g = root_list[i];
        let (v, s) = extract_group(model, dom, score, &sig_list, g);
        data.push(v);
        scores.push(s);
        i = i + 1;
    }
    Ok(ExtractResult { scores, data })
}

/// Parses the HTML text of a page and extracts its fields with a model;
/// the parsed page is returned with the result, whose elements are nodes
/// of it.  A page without a root element gives the error
/// "html node missing".
pub fn extract_fields_str<F: Fn(&Comparison) -> ScoreKey>(
    model: &Model,
    html: &str,
    score: &F,
) -> (r: (Dom, Result<ExtractResult, String>))
    requires
        is_scorer(*score),
        model_wf(*model),
    ensures
        r.0@ == tree_of_events(parsed_events(html@)),
        r.0@.wf(),
        r.0.source_text() == html@,
        match r.0@.root_element() {
            None => r.1 matches Err(e) && e@ == "html node missing"@,
            Some(_) => extracted(&r.0, *model, *score, r.1),
        },
{
    let dom = Dom::parse(html);
    let res = match dom.root_element() {
        None => {
            let e = String::from_str("html node missing");
            Err(e)
        },
        Some(_) => extract_fields(model, &dom, score),
    };
    (dom, res)
}

/// The elements of the best matches of the fields share an element ancestor
/// exactly where it is a group candidate.
proof fn lemma_group_candidates<F: Fn(&Comparison) -> ScoreKey>(
    d: &Dom,
    fields: Seq<(String, FieldSignature)>,
    list: Seq<(&str, &Signature)>,
    best: Seq<(String, ScoredElement)>,
    els: Seq<usize>,
    f: F,
    root: int,
)
    requires
        names_of(list) == field_names(fields),
        sigs_of(list) == field_targets(fields),
        list.len() == fields.len(),
        els.len() == best.len(),
        forall|x: int| 0 <= x < els.len() ==> #[trigger] els[x] == best[x].1.1,
        forall|i: int|
            0 <= i < best.len() ==> {
                &&& names_field(list, (#[trigger] best[i]).0@)
                &&& best_between(d, names_of(list), sigs_of(list), f, best[i].0@, root, d@.ends[root])
                    == Some(best[i].1)
            },
        forall|name: Seq<char>|
            names_field(list, name) && best_between(d, names_of(list), sigs_of(list), f, name, root, d@.ends[root])
                is Some ==> #[trigger] has_key(best, name),
    ensures
        forall|a: int|
            #[trigger] is_group_candidate(d, fields, f, root, a) <==> (els.len() > 0
                && is_common_element_ancestor(d@, els, a)),
{
    assert forall|a: int|
        #[trigger] is_group_candidate(d, fields, f, root, a) <==> (els.len() > 0
            && is_common_element_ancestor(d@, els, a)) by {
        if els.len() > 0 && is_common_element_ancestor(d@, els, a) {
            let k = choose|k: int| 0 <= k < list.len() && (#[trigger] list[k]).0@ == best[0].0@;
            assert(names_of(list)[k] == fields[k].0@);
            assert(best_of(d, fields, f, root, fields[k].0@) is Some);
            assert forall|i: int| 0 <= i < fields.len() implies (#[trigger] best_of(d, fields, f, root, fields[i].0@) matches Some(b)
                ==> d@.is_element_ancestor(a, b.1 as int)) by {
                if best_of(d, fields, f, root, fields[i].0@) is Some {
                    assert(names_of(list)[i] == fields[i].0@);
                    assert(names_field(list, fields[i].0@)) by {
                        assert(list[i].0@ == fields[i].0@);
                    }
                    assert(has_key(best, fields[i].0@));
                    let j = choose|j: int| 0 <= j < best.len() && (#[trigger] best[j]).0@ == fields[i].0@;
                    assert(d@.is_element_ancestor(a, els[j] as int));
                }
            }
        }
        if is_group_candidate(d, fields, f, root, a) {
            let i = choose|i: int| 0 <= i < fields.len() && (#[trigger] best_of(d, fields, f, root, fields[i].0@)) is Some;
            assert(names_field(list, fields[i].0@)) by {
                assert(names_of(list)[i] == fields[i].0@);
                assert(list[i].0@ == fields[i].0@);
            }
            assert(has_key(best, fields[i].0@));
            assert forall|x: int| 0 <= x < els.len() implies d@.is_element_ancestor(a, #[trigger] els[x] as int) by {
                let k = choose|k: int| 0 <= k < list.len() && (#[trigger] list[k]).0@ == best[x].0@;
                assert(names_of(list)[k] == fields[k].0@);
                assert(best_of(d, fields, f, root, fields[k].0@) == Some(best[x].1));
            }
        }
    }
}


/// Extraction succeeded and found at least one group.
pub open spec fn finds_some_group(r: Result<ExtractResult, String>) -> bool {
    match r {
        Ok(res) => res.data@.len() >= 1,
        Err(_) => false,
    }
}

/// A model generated from a page, applied to that same page, finds the
/// sample's group: the element whose signature became the model's group
/// signature is among the groups extracted, so extraction succeeds with at
/// least one group.  This holds where the scorer
/// scores at least 0.75 a comparison whose criteria are all met fully with
/// the default weights, and where no attribute of that element is in a
/// namespace (an attribute in a namespace is not found by its bare name;
/// `page_has_plain_attributes` checks this of a whole page).
pub proof fn lemma_model_finds_own_group<F: Fn(&Comparison) -> ScoreKey>(
    d: &Dom,
    sels: Seq<(String, FieldSelector)>,
    f: F,
    m: Model,
    a: int,
)
    requires
        d@.wf(),
        d@.kinds[0] == NodeKind::Other,
        d@.root_element() is Some,
        model_generated(d, d@.root_element().unwrap(), sels, f, m),
        is_group_parent(d, m.field_signatures@, f, d@.root_element().unwrap(), a),
        signature_view_of(d@, a) == m.group_signature@,
        plain_attrs(d@.kinds[a]->attrs@),
        forall|cv: ComparisonView| #[trigger]
            is_perfect_comparison(cv) ==> is_match(comparison_score(f, cv)),
    ensures
        exists|i: int|
            0 <= i < group_matches(d, m, f).len() && (#[trigger] group_matches(d, m, f)[i]).1 == a,
        forall|r: Result<ExtractResult, String>| #[trigger]
            extracted(d, m, f, r) ==> finds_some_group(r),
{
    let t = d@;
    let re = t.root_element().unwrap();
    let fields = m.field_signatures@;
    d.lemma_size();
    lemma_root_element(t, 1);
    // the group element lies above the best match of some field, which lies
    // below the root element
    let i = choose|i: int|
        0 <= i < fields.len() && (#[trigger] best_of(d, fields, f, re, fields[i].0@)) is Some;
    let b = best_of(d, fields, f, re, fields[i].0@).unwrap();
    assert(t.is_element_ancestor(a, b.1 as int));
    lemma_best_is_maximal(d, field_names(fields), field_targets(fields), f, fields[i].0@, re, t.ends[re]);
    let e = b.1 as int;
    assert(re <= e < t.ends[re]);
    assert(t.in_subtree(re, e));
    assert(t.in_subtree(a, e));
    if a < re {
        lemma_subtree_nested(t, a, re, e);
        assert(t.in_subtree(a, t.parents[re]));
        lemma_subtree_after(t, a, 0);
        assert(false);
    } else {
        lemma_subtree_nested(t, re, a, e);
    }
    assert(re <= a < t.ends[re]);
    // the group element meets its own signature fully
    lemma_own_signature_perfect(t, a);
    reveal(score_of);
    assert(is_match(score_of(f, d, &m.group_signature, a)));
    lemma_matches_exact(d, seq!["root"@], seq![m.group_signature], f, "root"@, re, t.ends[re]);
    assert(considered(d, seq!["root"@], "root"@, re, t.ends[re], a, 0));
    let j = choose|j: int|
        0 <= j < group_matches(d, m, f).len() && #[trigger] group_matches(d, m, f)[j]
            == ScoredElement(score_of(f, d, &seq![m.group_signature][0], a), a as usize);
    assert(group_matches(d, m, f)[j].1 == a);
}


/// Two documents that stand for the same page: the same tree, parsed from
/// the same text.
pub open spec fn same_page(d1: &Dom, d2: &Dom) -> bool {
    d1@ == d2@ && d1.source_text() == d2.source_text()
}

/// The best candidate depends on the document and the signatures only
/// through their values.
proof fn lemma_element_best_views<F: Fn(&Comparison) -> ScoreKey>(
    d1: &Dom,
    d2: &Dom,
    names: Seq<Seq<char>>,
    s1: Seq<Signature>,
    s2: Seq<Signature>,
    f: F,
    name: Seq<char>,
    e: int,
    k: int,
    cur: Option<ScoredElement>,
)
    requires
        d1@ == d2@,
        names.len() == s1.len(),
        s1.len() == s2.len(),
        forall|x: int| 0 <= x < s1.len() ==> (#[trigger] s1[x])@ == s2[x]@,
        k <= names.len(),
    ensures
        element_best(d1, names, s1, f, name, e, k, cur) == element_best(d2, names, s2, f, name, e, k, cur),
    decreases k,
{
    if k > 0 {
        lemma_element_best_views(d1, d2, names, s1, s2, f, name, e, k - 1, cur);
        reveal(score_of);
        assert(s1[k - 1]@ == s2[k - 1]@);
        assert(score_of(f, d1, &s1[k - 1], e) == score_of(f, d2, &s2[k - 1], e));
    }
}

proof fn lemma_best_between_views<F: Fn(&Comparison) -> ScoreKey>(
    d1: &Dom,
    d2: &Dom,
    names: Seq<Seq<char>>,
    s1: Seq<Signature>,
    s2: Seq<Signature>,
    f: F,
    name: Seq<char>,
    lo: int,
    hi: int,
)
    requires
        d1@ == d2@,
        names.len() == s1.len(),
        s1.len() == s2.len(),
        forall|x: int| 0 <= x < s1.len() ==> (#[trigger] s1[x])@ == s2[x]@,
    ensures
        best_between(d1, names, s1, f, name, lo, hi) == best_between(d2, names, s2, f, name, lo, hi),
    decreases hi - lo,
{
    if hi > lo {
        lemma_best_between_views(d1, d2, names, s1, s2, f, name, lo, hi - 1);
        lemma_element_best_views(
            d1,
            d2,
            names,
            s1,
            s2,
            f,
            name,
            hi - 1,
            names.len() as int,
            best_between(d1, names, s1, f, name, lo, hi - 1),
        );
    }
}

/// The fields have the same names, and the same target signatures up to
/// their values.
spec fn same_targets(a: Seq<(String, FieldSignature)>, b: Seq<(String, FieldSignature)>) -> bool {
    &&& a.len() == b.len()
    &&& forall|i: int|
        0 <= i < a.len() ==> (#[trigger] a[i]).0@ == b[i].0@ && target_of(a[i].1)@ == target_of(
            b[i].1,
        )@
}

/// Fields with the same names and target values have the same group
/// candidates in documents with the same tree.
proof fn lemma_same_candidates<F: Fn(&Comparison) -> ScoreKey>(
    d1: &Dom,
    d2: &Dom,
    a: Seq<(String, FieldSignature)>,
    b: Seq<(String, FieldSignature)>,
    f: F,
    root: int,
)
    requires
        d1@ == d2@,
        same_targets(a, b),
    ensures
        forall|x: int|
            #![trigger is_group_candidate(d1, a, f, root, x)]
            #![trigger is_group_candidate(d2, b, f, root, x)]
            is_group_candidate(d1, a, f, root, x) == is_group_candidate(d2, b, f, root, x),
{
    assert(field_names(a) =~= field_names(b));
    assert forall|name: Seq<char>|
        #[trigger] best_of(d1, a, f, root, name) == best_of(d2, b, f, root, name) by {
        lemma_best_between_views(
            d1,
            d2,
            field_names(a),
            field_targets(a),
            field_targets(b),
            f,
            name,
            root,
            d1@.ends[root],
        );
    }
    assert forall|x: int| #[trigger]
        is_group_candidate(d1, a, f, root, x) == is_group_candidate(d2, b, f, root, x) by {
        assert forall|i: int| 0 <= i < a.len() implies #[trigger] best_of(d1, a, f, root, a[i].0@)
            == best_of(d2, b, f, root, b[i].0@) by {
            assert(a[i].0@ == b[i].0@);
        }
        if is_group_candidate(d1, a, f, root, x) {
            let i = choose|i: int|
                0 <= i < a.len() && (#[trigger] best_of(d1, a, f, root, a[i].0@)) is Some;
            assert(best_of(d2, b, f, root, b[i].0@) is Some);
            assert forall|j: int| 0 <= j < b.len() implies (#[trigger] best_of(
                d2,
                b,
                f,
                root,
                b[j].0@,
            ) matches Some(c) ==> d2@.is_element_ancestor(x, c.1 as int)) by {
                assert(best_of(d1, a, f, root, a[j].0@) == best_of(d2, b, f, root, b[j].0@));
            }
        }
        if is_group_candidate(d2, b, f, root, x) {
            let i = choose|i: int|
                0 <= i < b.len() && (#[trigger] best_of(d2, b, f, root, b[i].0@)) is Some;
            assert(best_of(d1, a, f, root, a[i].0@) is Some);
            assert forall|j: int| 0 <= j < a.len() implies (#[trigger] best_of(
                d1,
                a,
                f,
                root,
                a[j].0@,
            ) matches Some(c) ==> d1@.is_element_ancestor(x, c.1 as int)) by {
                assert(best_of(d1, a, f, root, a[j].0@) == best_of(d2, b, f, root, b[j].0@));
            }
        }
    }
}

/// There is one deepest group candidate.
proof fn lemma_group_parent_unique<F: Fn(&Comparison) -> ScoreKey>(
    d: &Dom,
    fields: Seq<(String, FieldSignature)>,
    f: F,
    root: int,
    a1: int,
    a2: int,
)
    requires
        is_group_parent(d, fields, f, root, a1),
        is_group_parent(d, fields, f, root, a2),
    ensures
        a1 == a2,
{
    let t = d@;
    let i = choose|i: int|
        0 <= i < fields.len() && (#[trigger] best_of(d, fields, f, root, fields[i].0@)) is Some;
    let b = best_of(d, fields, f, root, fields[i].0@).unwrap().1 as int;
    assert(t.is_element_ancestor(a1, b));
    assert(t.is_element_ancestor(a2, b));
    assert(t.depth(a1) == t.depth(a2));
    if a1 < a2 {
        lemma_subtree_nested(t, a1, a2, t.parents[b]);
        lemma_subtree_depth(t, a1, a2);
    } else if a2 < a1 {
        lemma_subtree_nested(t, a2, a1, t.parents[b]);
        lemma_subtree_depth(t, a2, a1);
    }
}

/// Two models are equal as values: the same options, the same group
/// signature and the same fields, in the same order.
pub open spec fn same_model(m1: Model, m2: Model) -> bool
    decreases m1,
{
    &&& m1.normalisation.unwrap_text_tags == m2.normalisation.unwrap_text_tags
    &&& m1.group_signature@ == m2.group_signature@
    &&& m1.field_signatures@.len() == m2.field_signatures@.len()
    &&& forall|i: int|
        0 <= i < m1.field_signatures@.len() ==> (#[trigger] m1.field_signatures@[i]).0@
            == m2.field_signatures@[i].0@ && same_field(
            m1.field_signatures@[i].1,
            m2.field_signatures@[i].1,
        )
}

/// Two fields are equal as values.
pub open spec fn same_field(a: FieldSignature, b: FieldSignature) -> bool
    decreases a,
{
    match a {
        FieldSignature::Signature(s) => b matches FieldSignature::Signature(t) && s@ == t@,
        FieldSignature::Submodel(m) => b matches FieldSignature::Submodel(n) && same_model(m, n),
    }
}

/// Fields equal as values have the same targets.
proof fn lemma_same_fields_targets(a: Seq<(String, FieldSignature)>, b: Seq<(String, FieldSignature)>)
    requires
        a.len() == b.len(),
        forall|i: int| 0 <= i < a.len() ==> (#[trigger] a[i]).0@ == b[i].0@ && same_field(a[i].1, b[i].1),
    ensures
        same_targets(a, b),
{
    assert forall|i: int| 0 <= i < a.len() implies (#[trigger] a[i]).0@ == b[i].0@ && target_of(
        a[i].1,
    )@ == target_of(b[i].1)@ by {
        assert(same_field(a[i].1, b[i].1));
    }
}

/// Two generations from one field selector on the same page build equal
/// fields.
proof fn lemma_field_generated_unique<F: Fn(&Comparison) -> ScoreKey>(
    d1: &Dom,
    d2: &Dom,
    root: int,
    sel: FieldSelector,
    f: F,
    x: FieldSignature,
    y: FieldSignature,
)
    requires
        same_page(d1, d2),
        field_generated(d1, root, sel, f, x),
        field_generated(d2, root, sel, f, y),
    ensures
        same_field(x, y),
    decreases sel, 0int,
{
    match sel {
        FieldSelector::Submodel(sub) => {
            assert(decreases_to!(sel => sub@));
            lemma_model_generated_unique(d1, d2, root, sub@, f, x->Submodel_0, y->Submodel_0);
        },
        _ => {},
    }
}

/// Two generations from the same field selectors on the same page build
/// equal fields.
proof fn lemma_fields_generated_unique<F: Fn(&Comparison) -> ScoreKey>(
    d1: &Dom,
    d2: &Dom,
    root: int,
    sels: Seq<(String, FieldSelector)>,
    f: F,
    a: Seq<(String, FieldSignature)>,
    b: Seq<(String, FieldSignature)>,
)
    requires
        same_page(d1, d2),
        fields_generated(d1, root, sels, f, a, sels.len() as int),
        fields_generated(d2, root, sels, f, b, sels.len() as int),
    ensures
        a.len() == b.len(),
        forall|i: int| 0 <= i < a.len() ==> (#[trigger] a[i]).0@ == b[i].0@ && same_field(a[i].1, b[i].1),
        same_targets(a, b),
    decreases sels, 0int,
{
    assert forall|i: int| 0 <= i < a.len() implies (#[trigger] a[i]).0@ == b[i].0@ && same_field(
        a[i].1,
        b[i].1,
    ) by {
        assert(field_generated(d1, root, sels[i].1, f, a[i].1));
        assert(field_generated(d2, root, sels[i].1, f, b[i].1));
        assert(decreases_to!(sels => sels[i].1));
        lemma_field_generated_unique(d1, d2, root, sels[i].1, f, a[i].1, b[i].1);
    }
    lemma_same_fields_targets(a, b);
}

/// Two generations from the same field selectors on the same page build
/// equal models.
proof fn lemma_model_generated_unique<F: Fn(&Comparison) -> ScoreKey>(
    d1: &Dom,
    d2: &Dom,
    root: int,
    sels: Seq<(String, FieldSelector)>,
    f: F,
    m1: Model,
    m2: Model,
)
    requires
        same_page(d1, d2),
        model_generated(d1, root, sels, f, m1),
        model_generated(d2, root, sels, f, m2),
    ensures
        same_model(m1, m2),
    decreases sels, 1int,
{
    let a = m1.field_signatures@;
    let b = m2.field_signatures@;
    lemma_fields_generated_unique(d1, d2, root, sels, f, a, b);
    lemma_same_candidates(d1, d2, a, b, f, root);
    let a1 = choose|x: int|
        is_group_parent(d1, a, f, root, x) && #[trigger] signature_view_of(d1@, x) == m1.group_signature@;
    let a2 = choose|x: int|
        is_group_parent(d2, b, f, root, x) && #[trigger] signature_view_of(d2@, x) == m2.group_signature@;
    assert(is_group_parent(d2, b, f, root, a1)) by {
        assert(is_group_candidate(d1, a, f, root, a1));
        assert forall|c: int| #[trigger] is_group_candidate(d2, b, f, root, c) implies d2@.depth(c)
            <= d2@.depth(a1) by {
            assert(is_group_candidate(d1, a, f, root, c));
        }
    }
    lemma_group_parent_unique(d2, b, f, root, a1, a2);
}

/// A field selector that generation builds a field from on a page does not
/// make generation fail on the same page.
proof fn lemma_field_not_both<F: Fn(&Comparison) -> ScoreKey>(
    dg: &Dom,
    de: &Dom,
    root: int,
    name: Seq<char>,
    sel: FieldSelector,
    f: F,
    fs: FieldSignature,
    err: Seq<char>,
)
    requires
        same_page(dg, de),
    ensures
        !(field_generated(dg, root, sel, f, fs) && field_error(de, root, name, sel, f, err)),
    decreases sel, 0int,
{
    match sel {
        FieldSelector::Submodel(sub) => {
            if fs is Submodel {
                assert(decreases_to!(sel => sub@));
                lemma_exclusive_on(dg, de, root, sub@, f, fs->Submodel_0, err);
            }
        },
        _ => {},
    }
}

/// Success on a page and failure on the same page exclude each other.
proof fn lemma_exclusive_on<F: Fn(&Comparison) -> ScoreKey>(
    dg: &Dom,
    de: &Dom,
    root: int,
    sels: Seq<(String, FieldSelector)>,
    f: F,
    m: Model,
    err: Seq<char>,
)
    requires
        same_page(dg, de),
    ensures
        !(model_generated(dg, root, sels, f, m) && model_error(de, root, sels, f, err)),
    decreases sels, 2int,
{
    if model_generated(dg, root, sels, f, m) && model_error(de, root, sels, f, err) {
        lemma_both_impossible(dg, de, root, sels, f, m, err);
    }
}

/// The two conditions together lead to a contradiction.
proof fn lemma_both_impossible<F: Fn(&Comparison) -> ScoreKey>(
    dg: &Dom,
    de: &Dom,
    root: int,
    sels: Seq<(String, FieldSelector)>,
    f: F,
    m: Model,
    err: Seq<char>,
)
    requires
        same_page(dg, de),
        model_generated(dg, root, sels, f, m),
        model_error(de, root, sels, f, err),
    ensures
        !model_generated(dg, root, sels, f, m),
    decreases sels, 1int,
{
    let fields = m.field_signatures@;
    if exists|k: int, other: Seq<(String, FieldSignature)>|
        0 <= k < sels.len() && #[trigger] fields_generated(de, root, sels, f, other, k)
            && field_error(de, root, sels[k].0@, sels[k].1, f, err) {
        let (k, other) = choose|k: int, other: Seq<(String, FieldSignature)>|
            0 <= k < sels.len() && #[trigger] fields_generated(de, root, sels, f, other, k)
                && field_error(de, root, sels[k].0@, sels[k].1, f, err);
        assert(field_generated(dg, root, sels[k].1, f, fields[k].1));
        assert(decreases_to!(sels => sels[k].1));
        lemma_field_not_both(dg, de, root, sels[k].0@, sels[k].1, f, fields[k].1, err);
    } else {
        let other = choose|other: Seq<(String, FieldSignature)>|
            #[trigger] fields_generated(de, root, sels, f, other, sels.len() as int) && (forall|
                a: int,
            | !#[trigger] is_group_candidate(de, other, f, root, a)) && err == no_group_message();
        lemma_fields_generated_unique(dg, de, root, sels, f, fields, other);
        lemma_same_candidates(dg, de, fields, other, f, root);
        let a = choose|a: int|
            is_group_parent(dg, fields, f, root, a) && #[trigger] signature_view_of(dg@, a)
                == m.group_signature@;
        assert(is_group_candidate(de, other, f, root, a));
    }
}

/// Generation from a list of field selectors either builds a model or
/// fails, never both: the conditions of success and of failure exclude
/// each other, so the contract of `generate_model` pins down which comes.
pub proof fn lemma_generation_exclusive<F: Fn(&Comparison) -> ScoreKey>(
    d: &Dom,
    root: int,
    sels: Seq<(String, FieldSelector)>,
    f: F,
    m: Model,
    err: Seq<char>,
)
    ensures
        !(model_generated(d, root, sels, f, m) && model_error(d, root, sels, f, err)),
{
    lemma_exclusive_on(d, d, root, sels, f, m, err);
}

/// Two failures of generation on the same page give the same field's error.
proof fn lemma_field_error_unique<F: Fn(&Comparison) -> ScoreKey>(
    d1: &Dom,
    d2: &Dom,
    root: int,
    name: Seq<char>,
    sel: FieldSelector,
    f: F,
    e1: Seq<char>,
    e2: Seq<char>,
)
    requires
        same_page(d1, d2),
        field_error(d1, root, name, sel, f, e1),
        field_error(d2, root, name, sel, f, e2),
    ensures
        e1 == e2,
    decreases sel, 0int,
{
    match sel {
        FieldSelector::Submodel(sub) => {
            assert(decreases_to!(sel => sub@));
            lemma_model_error_unique(d1, d2, root, sub@, f, e1, e2);
        },
        _ => {},
    }
}

/// Two failures of generation on the same page give the same message.
proof fn lemma_model_error_unique<F: Fn(&Comparison) -> ScoreKey>(
    d1: &Dom,
    d2: &Dom,
    root: int,
    sels: Seq<(String, FieldSelector)>,
    f: F,
    e1: Seq<char>,
    e2: Seq<char>,
)
    requires
        same_page(d1, d2),
        model_error(d1, root, sels, f, e1),
        model_error(d2, root, sels, f, e2),
    ensures
        e1 == e2,
    decreases sels, 1int,
{
    let first1 = exists|k: int, other: Seq<(String, FieldSignature)>|
        0 <= k < sels.len() && #[trigger] fields_generated(d1, root, sels, f, other, k)
            && field_error(d1, root, sels[k].0@, sels[k].1, f, e1);
    let first2 = exists|k: int, other: Seq<(String, FieldSignature)>|
        0 <= k < sels.len() && #[trigger] fields_generated(d2, root, sels, f, other, k)
            && field_error(d2, root, sels[k].0@, sels[k].1, f, e2);
    if first1 {
        let (k1, o1) = choose|k: int, other: Seq<(String, FieldSignature)>|
            0 <= k < sels.len() && #[trigger] fields_generated(d1, root, sels, f, other, k)
                && field_error(d1, root, sels[k].0@, sels[k].1, f, e1);
        assert(decreases_to!(sels => sels[k1].1));
        if first2 {
            let (k2, o2) = choose|k: int, other: Seq<(String, FieldSignature)>|
                0 <= k < sels.len() && #[trigger] fields_generated(d2, root, sels, f, other, k)
                    && field_error(d2, root, sels[k].0@, sels[k].1, f, e2);
            assert(decreases_to!(sels => sels[k2].1));
            if k1 < k2 {
                assert(field_generated(d2, root, sels[k1].1, f, o2[k1].1));
                lemma_field_not_both(d2, d1, root, sels[k1].0@, sels[k1].1, f, o2[k1].1, e1);
            } else if k2 < k1 {
                assert(field_generated(d1, root, sels[k2].1, f, o1[k2].1));
                lemma_field_not_both(d1, d2, root, sels[k2].0@, sels[k2].1, f, o1[k2].1, e2);
            } else {
                lemma_field_error_unique(d1, d2, root, sels[k1].0@, sels[k1].1, f, e1, e2);
            }
        } else {
            let o2 = choose|other: Seq<(String, FieldSignature)>|
                #[trigger] fields_generated(d2, root, sels, f, other, sels.len() as int) && (forall|
                    a: int,
                | !#[trigger] is_group_candidate(d2, other, f, root, a)) && e2 == no_group_message();
            assert(field_generated(d2, root, sels[k1].1, f, o2[k1].1));
            lemma_field_not_both(d2, d1, root, sels[k1].0@, sels[k1].1, f, o2[k1].1, e1);
        }
    } else if first2 {
        let (k2, o2) = choose|k: int, other: Seq<(String, FieldSignature)>|
            0 <= k < sels.len() && #[trigger] fields_generated(d2, root, sels, f, other, k)
                && field_error(d2, root, sels[k].0@, sels[k].1, f, e2);
        let o1 = choose|other: Seq<(String, FieldSignature)>|
            #[trigger] fields_generated(d1, root, sels, f, other, sels.len() as int) && (forall|
                a: int,
            | !#[trigger] is_group_candidate(d1, other, f, root, a)) && e1 == no_group_message();
        assert(decreases_to!(sels => sels[k2].1));
        assert(field_generated(d1, root, sels[k2].1, f, o1[k2].1));
        lemma_field_not_both(d1, d2, root, sels[k2].0@, sels[k2].1, f, o1[k2].1, e2);
    }
}

/// What generation gives: a model it builds, or the error it fails with.
pub open spec fn generated<F: Fn(&Comparison) -> ScoreKey>(
    d: &Dom,
    root: int,
    sels: Seq<(String, FieldSelector)>,
    f: F,
    r: Result<Model, String>,
) -> bool {
    match r {
        Ok(m) => model_generated(d, root, sels, f, m),
        Err(e) => model_error(d, root, sels, f, e@),
    }
}

/// Two results of generation are equal as values: equal models, or the
/// same error message.
pub open spec fn same_result(r1: Result<Model, String>, r2: Result<Model, String>) -> bool {
    match r1 {
        Ok(m1) => r2 matches Ok(m2) && same_model(m1, m2),
        Err(e1) => r2 matches Err(e2) && e1@ == e2@,
    }
}

/// Generation is a function of its inputs: on the same page, from the same
/// field selectors, it gives equal models or the same error.
pub proof fn lemma_generation_deterministic<F: Fn(&Comparison) -> ScoreKey>(
    d1: &Dom,
    d2: &Dom,
    root: int,
    sels: Seq<(String, FieldSelector)>,
    f: F,
    r1: Result<Model, String>,
    r2: Result<Model, String>,
)
    requires
        same_page(d1, d2),
        generated(d1, root, sels, f, r1),
        generated(d2, root, sels, f, r2),
    ensures
        same_result(r1, r2),
{
    match r1 {
        Ok(m1) => match r2 {
            Ok(m2) => lemma_model_generated_unique(d1, d2, root, sels, f, m1, m2),
            Err(e2) => lemma_exclusive_on(d1, d2, root, sels, f, m1, e2@),
        },
        Err(e1) => match r2 {
            Ok(m2) => lemma_exclusive_on(d2, d1, root, sels, f, m2, e1@),
            Err(e2) => lemma_model_error_unique(d1, d2, root, sels, f, e1@, e2@),
        },
    }
}

/// What `generate_model_str` gives for the HTML text `html`.
pub open spec fn generated_from_html<F: Fn(&Comparison) -> ScoreKey>(
    html: Seq<char>,
    sels: Seq<(String, FieldSelector)>,
    f: F,
    r: Result<Model, String>,
) -> bool {
    exists|d: Dom|
        #![trigger d@]
        d@ == tree_of_events(parsed_events(html)) && d@.wf() && d@.kinds[0] == NodeKind::Other
            && d.source_text() == html && match d@.root_element() {
            None => r matches Err(e) && e@ == "html node missing"@,
            Some(root) => generated(&d, root, sels, f, r),
        }
}

/// `generate_model_str` is a function of its inputs: the same HTML text
/// and field selectors give equal models or the same error.
pub proof fn lemma_generate_model_str_deterministic<F: Fn(&Comparison) -> ScoreKey>(
    html: Seq<char>,
    sels: Seq<(String, FieldSelector)>,
    f: F,
    r1: Result<Model, String>,
    r2: Result<Model, String>,
)
    requires
        generated_from_html(html, sels, f, r1),
        generated_from_html(html, sels, f, r2),
    ensures
        same_result(r1, r2),
{
    let d1 = choose|d: Dom|
        #![trigger d@]
        d@ == tree_of_events(parsed_events(html)) && d@.wf() && d@.kinds[0] == NodeKind::Other
            && d.source_text() == html && match d@.root_element() {
            None => r1 matches Err(e) && e@ == "html node missing"@,
            Some(root) => generated(&d, root, sels, f, r1),
        };
    let d2 = choose|d: Dom|
        #![trigger d@]
        d@ == tree_of_events(parsed_events(html)) && d@.wf() && d@.kinds[0] == NodeKind::Other
            && d.source_text() == html && match d@.root_element() {
            None => r2 matches Err(e) && e@ == "html node missing"@,
            Some(root) => generated(&d, root, sels, f, r2),
        };
    assert(same_page(&d1, &d2));
    if let Some(root) = d1@.root_element() {
        lemma_generation_deterministic(&d1, &d2, root, sels, f, r1, r2);
    }
}


/// A model that `generate_model_str` builds from the HTML text of a page
/// finds at least one group on that same page: extraction from the same
/// text (`extract_fields_str`) succeeds with at least one group.  This
/// holds where the scorer scores at least 0.75 a comparison whose criteria
/// are all met fully with the default weights, and where no attribute of
/// the page is in a namespace (an attribute in a namespace is not found by
/// its bare name; `page_has_plain_attributes` checks this).
pub proof fn lemma_generate_then_extract<F: Fn(&Comparison) -> ScoreKey>(
    html: Seq<char>,
    sels: Seq<(String, FieldSelector)>,
    f: F,
    m: Model,
    d: &Dom,
    r: Result<ExtractResult, String>,
)
    requires
        generated_from_html(html, sels, f, Ok(m)),
        d@ == tree_of_events(parsed_events(html)),
        page_plain(d@),
        forall|cv: ComparisonView| #[trigger]
            is_perfect_comparison(cv) ==> is_match(comparison_score(f, cv)),
        extracted(d, m, f, r),
    ensures
        finds_some_group(r),
{
    let d0 = choose|x: Dom|
        #![trigger x@]
        x@ == tree_of_events(parsed_events(html)) && x@.wf() && x@.kinds[0] == NodeKind::Other
            && x.source_text() == html && match x@.root_element() {
            None => Ok::<Model, String>(m) matches Err(e) && e@ == "html node missing"@,
            Some(root) => generated(&x, root, sels, f, Ok(m)),
        };
    let root = d0@.root_element().unwrap();
    assert(model_generated(&d0, root, sels, f, m));
    let a = choose|a: int|
        is_group_parent(&d0, m.field_signatures@, f, root, a) && #[trigger] signature_view_of(
            d0@,
            a,
        ) == m.group_signature@;
    assert(d0@.is_element(a)) by {
        let i = choose|i: int|
            0 <= i < m.field_signatures@.len() && (#[trigger] best_of(
                &d0,
                m.field_signatures@,
                f,
                root,
                m.field_signatures@[i].0@,
            )) is Some;
    }
    assert(0 <= a < d0@.n()) by {
        let i = choose|i: int|
            0 <= i < m.field_signatures@.len() && (#[trigger] best_of(
                &d0,
                m.field_signatures@,
                f,
                root,
                m.field_signatures@[i].0@,
            )) is Some;
    }
    assert(plain_attrs(d0@.kinds[a]->attrs@));
    lemma_model_finds_own_group(&d0, sels, f, m, a);
    let re = d0@.root_element().unwrap();
    crate::score::lemma_matches_doms(
        d,
        &d0,
        seq!["root"@],
        seq![m.group_signature],
        f,
        "root"@,
        re,
        d0@.ends[re],
    );
    assert(group_matches(d, m, f) == group_matches(&d0, m, f));
}

} // verus!
