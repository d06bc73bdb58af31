//! Comparison of a candidate element with a signature.
//!
//! Each criterion of the comparison (the regular expression, the tag name,
//! every token of every attribute, the depth and the text length) is
//! reduced here to exact integers, each with its weight.  How the criteria
//! turn into one floating-point score is left to the caller.
use vstd::prelude::*;
use vstd::string::StringExecFns;
use crate::dom::{Attribute, Dom, DomModel, NodeKind, kind_ok};
use crate::signature::{
    AttrValue, AttrValueView, Signature, SignatureView, attr_entry, compute_signature, kept_attrs,
    names_unique, signature_wf,
    normalise_attr_value, normalised, signature_view_of,
};
use crate::text::{join_with_space, str_chars, string_views};
use crate::utils::{chars_eq, compare_html_tag_name, lemma_tag_similarity, tag_similarity};

verus! {

/// The Damerau–Levenshtein distance between two strings, counted in
/// characters, as `strsim` computes it.
pub uninterp spec fn damerau_levenshtein_distance(a: Seq<char>, b: Seq<char>) -> usize;

/// Calls `strsim::damerau_levenshtein`.  Its result is a function of the
/// two strings alone; as an edit distance counted in characters it is 0
/// exactly between equal strings (the crate documents the normalised score
/// of the same algorithm, `1 - distance / longer length`, as lying in
/// [0, 1] and being 1 exactly for equal strings), and it is at most the
/// length of the longer string; nothing more of it is stated.
#[verifier::external_body]
fn damerau_levenshtein(a: &str, b: &str) -> (r: usize)
    ensures
        r == damerau_levenshtein_distance(a@, b@),
        a@ == b@ ==> r == 0,
        r == 0 ==> a@ == b@,
        r <= (if a@.len() >= b@.len() {
            a@.len()
        } else {
            b@.len()
        }),
{
    strsim::damerau_levenshtein(a, b)
}

/// How close an attribute token is to an expected token, as the
/// normalised Damerau–Levenshtein score `1 - distance / length`, where
/// `length` is the number of characters of the longer token.  Two empty
/// tokens have `length` 0 and score 1.
#[derive(Clone, Copy, Debug, PartialEq, Eq, Structural)]
pub struct AttrMatch {
    pub distance: usize,
    pub length: usize,
}

/// The match of token `value` against the expected token `expected`; equal
/// tokens are at distance 0.
pub open spec fn attr_match_of(expected: Seq<char>, value: Seq<char>) -> AttrMatch {
    if expected.len() == 0 && value.len() == 0 {
        AttrMatch { distance: 0, length: 0 }
    } else {
        AttrMatch {
            distance: if expected == value {
                0
            } else {
                damerau_levenshtein_distance(expected, value)
            },
            length: (if expected.len() >= value.len() {
                expected.len()
            } else {
                value.len()
            }) as usize,
        }
    }
}

/// The denominator of the score of `m`.
pub open spec fn match_den(m: AttrMatch) -> int {
    if m.length == 0 {
        1
    } else {
        m.length as int
    }
}

/// `a` scores strictly more than `b`.
pub open spec fn match_gt(a: AttrMatch, b: AttrMatch) -> bool {
    b.distance * match_den(a) > a.distance * match_den(b)
}

/// `a` scores strictly more than 0.
pub open spec fn match_positive(a: AttrMatch) -> bool {
    a.distance < match_den(a)
}

/// One step of the search for the best match: `m` replaces the best so far
/// when it scores strictly more (strictly more than 0 for the first).
pub open spec fn best_step(cur: Option<AttrMatch>, m: AttrMatch) -> Option<AttrMatch> {
    match cur {
        None => if match_positive(m) {
            Some(m)
        } else {
            None
        },
        Some(c) => if match_gt(m, c) {
            Some(m)
        } else {
            cur
        },
    }
}

/// The first of the matches that no other beats, among those that score
/// more than 0.
pub open spec fn best_of_matches(ms: Seq<AttrMatch>) -> Option<AttrMatch>
    decreases ms.len(),
{
    if ms.len() == 0 {
        None
    } else {
        best_step(best_of_matches(ms.drop_last()), ms.last())
    }
}

/// Scores of matches compare as fractions.
proof fn lemma_match_gt_trans(a: AttrMatch, b: AttrMatch, c: AttrMatch)
    requires
        match_gt(a, b),
        match_gt(b, c),
    ensures
        match_gt(a, c),
{
    let (da, db, dc) = (a.distance as int, b.distance as int, c.distance as int);
    let (na, nb, nc) = (match_den(a), match_den(b), match_den(c));
    assert(dc * na > da * nc) by (nonlinear_arith)
        requires
            db * na > da * nb,
            dc * nb > db * nc,
            na > 0,
            nb > 0,
            nc > 0,
            da >= 0,
            db >= 0,
            dc >= 0,
    {
        assert(dc * nb * na > db * nc * na);
        assert(db * na * nc > da * nb * nc);
        assert(dc * na * nb > da * nc * nb);
    }
}

/// A match that beats a positive one is positive.
proof fn lemma_match_gt_positive(a: AttrMatch, b: AttrMatch)
    requires
        match_gt(a, b),
        match_positive(b),
    ensures
        match_positive(a),
{
    let (da, db) = (a.distance as int, b.distance as int);
    let (na, nb) = (match_den(a), match_den(b));
    assert(da < na) by (nonlinear_arith)
        requires
            db * na > da * nb,
            db < nb,
            na > 0,
            nb > 0,
            da >= 0,
            db >= 0,
    {
        assert(db * na < nb * na);
    }
}

/// Picks the best of the matches of an expected token against the tokens
/// of an attribute: the first that no other beats, provided it scores
/// more than 0.  It is one of the matches, scores more than 0, and none of
/// the matches scores strictly more; there is none exactly where no match
/// scores more than 0.
pub fn best_attr_match(ms: &[AttrMatch]) -> (r: Option<AttrMatch>)
    ensures
        r == best_of_matches(ms@),
        r matches Some(b) ==> {
            &&& match_positive(b)
            &&& exists|i: int| 0 <= i < ms@.len() && ms@[i] == b
            &&& forall|i: int| 0 <= i < ms@.len() ==> !match_gt(#[trigger] ms@[i], b)
        },
        r is None ==> forall|i: int| 0 <= i < ms@.len() ==> !match_positive(#[trigger] ms@[i]),
{
    let mut best: Option<AttrMatch> = None;
    let mut i: usize = 0;
    while i < ms.len()
        invariant
            i <= ms@.len(),
            best == best_of_matches(ms@.take(i as int)),
            best matches Some(b) ==> {
                &&& match_positive(b)
                &&& exists|j: int| 0 <= j < i && ms@[j] == b
                &&& forall|j: int| 0 <= j < i ==> !match_gt(#[trigger] ms@[j], b)
            },
            best is None ==> forall|j: int| 0 <= j < i ==> !match_positive(#[trigger] ms@[j]),
        decreases ms.len() - i,
    {
        let m = ms[i];
        let ghost old_best = best;
        proof {
            assert(ms@.take(i + 1).drop_last() =~= ms@.take(i as int));
            assert(ms@.take(i + 1).last() == m);
        }
        best = match best {
            None => if m.distance < (if m.length == 0 {
                1
            } else {
                m.length
            }) {
                Some(m)
            } else {
                None
            },
            Some(c) => {
                let den_m: u128 = if m.length == 0 {
                    1
                } else {
                    m.length as u128
                };
                let den_c: u128 = if c.length == 0 {
                    1
                } else {
                    c.length as u128
                };
                assert((c.distance as u128) * den_m <= u128::MAX) by (nonlinear_arith)
                    requires
                        c.distance <= u64::MAX,
                        den_m <= u64::MAX,
                ;
                assert((m.distance as u128) * den_c <= u128::MAX) by (nonlinear_arith)
                    requires
                        m.distance <= u64::MAX,
                        den_c <= u64::MAX,
                ;
                if (c.distance as u128) * den_m > (m.distance as u128) * den_c {
                    Some(m)
                } else {
                    Some(c)
                }
            },
        };
        proof {
            match old_best {
                None => {},
                Some(c) => {
                    if match_gt(m, c) {
                        lemma_match_gt_positive(m, c);
                        assert forall|j: int| 0 <= j < i + 1 implies !match_gt(#[trigger] ms@[j], m) by {
                            if j < i && match_gt(ms@[j], m) {
                                lemma_match_gt_trans(ms@[j], m, c);
                            }
                        }
                    }
                },
            }
            if best is None {
                assert forall|j: int| 0 <= j < i + 1 implies !match_positive(#[trigger] ms@[j]) by {}
            }
            if let Some(b) = best {
                if old_best is None {
                    assert forall|j: int| 0 <= j < i + 1 implies !match_gt(#[trigger] ms@[j], b) by {
                        if j < i && match_gt(ms@[j], b) {
                            lemma_match_gt_positive(ms@[j], b);
                        }
                    }
                }
            }
        }
        i = i + 1;
    }
    assert(ms@.take(ms@.len() as int) =~= ms@);
    best
}

/// The texts of the text nodes in `[lo, hi)`, in document order.
pub open spec fn texts_between(t: DomModel, lo: int, hi: int) -> Seq<Seq<char>>
    decreases hi - lo,
{
    if hi <= lo {
        seq![]
    } else {
        texts_between(t, lo, hi - 1) + match t.kinds[hi - 1] {
            NodeKind::Text { text } => seq![text@],
            _ => seq![],
        }
    }
}

/// The text of an element: the texts of the text nodes of its subtree,
/// joined with spaces.
pub open spec fn element_text_of(t: DomModel, el: int) -> Seq<char> {
    join_with_space(texts_between(t, el, t.ends[el]))
}

/// Computes the text of an element.
pub fn element_text(dom: &Dom, el: usize) -> (r: String)
    requires
        dom@.wf(),
        el < dom@.n(),
    ensures
        r@ == element_text_of(dom@, el as int),
{
    let end = dom.end(el);
    let mut r = String::new();
    let mut any = false;
    let mut k = el;
    while k < end
        invariant
            dom@.wf(),
            el < dom@.n(),
            end == dom@.ends[el as int],
            end <= dom@.n(),
            el <= k <= end,
            r@ == join_with_space(texts_between(dom@, el as int, k as int)),
            any == (texts_between(dom@, el as int, k as int).len() > 0),
        decreases end - k,
    {
        let ghost before = texts_between(dom@, el as int, k as int);
        match dom.kind(k) {
            NodeKind::Text { text } => {
                if any {
                    r.push(' ');
                }
                r.append(text.as_str());
                proof {
                    let after = texts_between(dom@, el as int, k + 1);
                    assert(after == before.push(text@));
                    assert(after.drop_last() =~= before);
                }
                any = true;
            },
            _ => {
                assert(texts_between(dom@, el as int, k + 1) =~= before);
            },
        }
        k = k + 1;
    }
    r
}


/// The texts of the text nodes of an element's subtree, in document order.
pub fn element_texts(dom: &Dom, el: usize) -> (r: Vec<String>)
    requires
        dom@.wf(),
        el < dom@.n(),
    ensures
        string_views(r@) == texts_between(dom@, el as int, dom@.ends[el as int]),
{
    let end = dom.end(el);
    let mut r: Vec<String> = Vec::new();
    let mut k = el;
    while k < end
        invariant
            dom@.wf(),
            el < dom@.n(),
            end == dom@.ends[el as int],
            end <= dom@.n(),
            el <= k <= end,
            string_views(r@) == texts_between(dom@, el as int, k as int),
        decreases end - k,
    {
        let ghost before = r@;
        match dom.kind(k) {
            NodeKind::Text { text } => {
                r.push(text.clone());
                assert(string_views(r@) =~= string_views(before).push(text@));
            },
            _ => {
                assert(texts_between(dom@, el as int, k + 1) =~= texts_between(
                    dom@,
                    el as int,
                    k as int,
                ));
            },
        }
        k = k + 1;
    }
    r
}

/// What `regex` says of `haystack` with the pattern `pattern`: `None` where
/// the pattern does not compile, else whether it matches somewhere.
pub uninterp spec fn regex_search(pattern: Seq<char>, haystack: Seq<char>) -> Option<bool>;

/// Compiles `pattern` with `regex::Regex::new` and, where it compiles,
/// asks `Regex::is_match` whether it matches anywhere in `haystack`.  The
/// answer is a function of the two strings (the size limit of compilation
/// is the crate's fixed default); nothing more of it is stated.
#[verifier::external_body]
fn regex_is_match(pattern: &str, haystack: &str) -> (r: Option<bool>)
    ensures
        r == regex_search(pattern@, haystack@),
{
    match regex::Regex::new(pattern) {
        Ok(re) => Some(re.is_match(haystack)),
        Err(_) => None,
    }
}

/// One criterion of a comparison, with the exact values it is scored on.
#[derive(Clone, Copy, Debug, PartialEq, Eq, Structural)]
pub enum Criterion {
    /// The text matches the signature's regular expression (score 1).
    Regex,
    /// Similarity of the tag names, in hundredths.
    TagName(u32),
    /// The best match of one expected attribute token among the
    /// candidate's tokens of that attribute; none where no token scores
    /// more than 0 (score 0).
    Attr(Option<AttrMatch>),
    /// Difference of depth between the signature and the candidate.
    Depth(u32),
    /// Text length of the signature, then of the candidate.
    TextLen(u32, u32),
}

/// The outcome of comparing a candidate with a signature.
pub enum Comparison {
    /// The candidate's text does not match the signature's regular
    /// expression: the candidate scores 0.
    Rejected,
    /// The criteria, each with its weight as the bits of an `f64`.
    Scored(Vec<(Criterion, u64)>),
}

/// A comparison as a mathematical value.
pub enum ComparisonView {
    Rejected,
    Scored(Seq<(Criterion, u64)>),
}

impl View for Comparison {
    type V = ComparisonView;

    open spec fn view(&self) -> ComparisonView {
        match self {
            Comparison::Rejected => ComparisonView::Rejected,
            Comparison::Scored(v) => ComparisonView::Scored(v@),
        }
    }
}

/// Bits of the `f64` 1.0, the weight of a criterion that the signature
/// does not weigh.
pub const DEFAULT_WEIGHT: u64 = 0x3FF0_0000_0000_0000;

/// The weight that `weights` gives the criterion `key`: that of its first
/// entry for `key`, else the default weight.
pub open spec fn weight_of(weights: Seq<(Seq<char>, u64)>, key: Seq<char>) -> u64
    decreases weights.len(),
{
    if weights.len() == 0 {
        DEFAULT_WEIGHT
    } else if weights[0].0 == key {
        weights[0].1
    } else {
        weight_of(weights.drop_first(), key)
    }
}

/// Looks up the weight of a criterion in a signature.
fn weight(sig: &Signature, key: &str) -> (r: u64)
    ensures
        r == weight_of(sig@.weights, key@),
{
    let k = str_chars(key);
    let ghost ws = sig@.weights;
    let mut i: usize = 0;
    assert(ws.skip(0) =~= ws);
    while i < sig.weights.len()
        invariant
            ws == sig@.weights,
            ws.len() == sig.weights@.len(),
            i <= ws.len(),
            k@ == key@,
            weight_of(ws, key@) == weight_of(ws.skip(i as int), key@),
        decreases sig.weights.len() - i,
    {
        let entry = &sig.weights[i];
        let name = str_chars(entry.0.as_str());
        proof {
            assert(ws[i as int] == (entry.0@, entry.1));
            assert(ws.skip(i as int)[0] == ws[i as int]);
            assert(ws.skip(i as int).drop_first() =~= ws.skip(i + 1));
        }
        if chars_eq(name.as_slice(), k.as_slice()) {
            return entry.1;
        }
        i = i + 1;
    }
    DEFAULT_WEIGHT
}

/// The value of the attribute named `name` outside any namespace, as
/// `scraper`'s `Element::attr` finds it (attributes outside a namespace
/// have no prefix in `html5ever`'s trees).
pub open spec fn attr_value_of(attrs: Seq<Attribute>, name: Seq<char>) -> Option<Seq<char>>
    decreases attrs.len(),
{
    if attrs.len() == 0 {
        None
    } else if attrs[0].namespace@.len() == 0 && attrs[0].name@ == name {
        Some(attrs[0].value@)
    } else {
        attr_value_of(attrs.drop_first(), name)
    }
}

/// Finds the value of an attribute outside any namespace.
fn find_attr<'a>(attrs: &'a Vec<Attribute>, name: &str) -> (r: Option<&'a String>)
    ensures
        match r {
            Some(v) => attr_value_of(attrs@, name@) == Some(v@),
            None => attr_value_of(attrs@, name@) is None,
        },
{
    let k = str_chars(name);
    let mut i: usize = 0;
    assert(attrs@.skip(0) =~= attrs@);
    while i < attrs.len()
        invariant
            i <= attrs@.len(),
            k@ == name@,
            attr_value_of(attrs@, name@) == attr_value_of(attrs@.skip(i as int), name@),
        decreases attrs.len() - i,
    {
        let a = &attrs[i];
        proof {
            assert(attrs@.skip(i as int)[0] == attrs@[i as int]);
            assert(attrs@.skip(i as int).drop_first() =~= attrs@.skip(i + 1));
        }
        if a.namespace.as_str().is_empty() {
            let an = str_chars(a.name.as_str());
            if chars_eq(an.as_slice(), k.as_slice()) {
                return Some(&a.value);
            }
        }
        i = i + 1;
    }
    None
}

/// The tokens of the candidate's attribute `name`: its normalised value,
/// or none where it has no such attribute.
pub open spec fn candidate_tokens(attrs: Seq<Attribute>, name: Seq<char>) -> Seq<Seq<char>> {
    match attr_value_of(attrs, name) {
        Some(v) => normalised(v),
        None => seq![],
    }
}

/// The tokens that a signature expects of an attribute.
pub open spec fn expected_tokens(v: AttrValueView) -> Seq<Seq<char>> {
    match v {
        AttrValueView::Signle(s) => seq![s],
        AttrValueView::List(l) => l,
    }
}

/// The best match of the expected token `e` among `tokens`.
pub open spec fn token_best(e: Seq<char>, tokens: Seq<Seq<char>>) -> Option<AttrMatch> {
    best_of_matches(tokens.map_values(|v: Seq<char>| attr_match_of(e, v)))
}

/// One criterion, weighing `w`, for each expected token.
pub open spec fn token_criteria(expected: Seq<Seq<char>>, tokens: Seq<Seq<char>>, w: u64) -> Seq<
    (Criterion, u64),
> {
    expected.map_values(|e: Seq<char>| (Criterion::Attr(token_best(e, tokens)), w))
}

/// The attribute criteria of a candidate with attributes `cand` against
/// the signature's attributes `target`, in the order of `target`.
pub open spec fn attr_criteria(
    target: Seq<(Seq<char>, AttrValueView)>,
    cand: Seq<Attribute>,
    w: u64,
) -> Seq<(Criterion, u64)>
    decreases target.len(),
{
    if target.len() == 0 {
        seq![]
    } else {
        attr_criteria(target.drop_last(), cand, w) + token_criteria(
            expected_tokens(target.last().1),
            candidate_tokens(cand, target.last().0),
            w,
        )
    }
}

/// `|a - b|`.
pub open spec fn abs_diff(a: u32, b: u32) -> u32 {
    if a >= b {
        (a - b) as u32
    } else {
        (b - a) as u32
    }
}

/// The criteria other than the regular expression: tag name, attributes,
/// depth and text length.
pub open spec fn criteria_after_regex(target: SignatureView, t: DomModel, el: int) -> Seq<
    (Criterion, u64),
> {
    let cand = signature_view_of(t, el);
    seq![(Criterion::TagName(tag_similarity(t.kinds[el]->name@, target.tag_name)), weight_of(target.weights, "tag_name"@))]
        + attr_criteria(target.attrs, t.kinds[el]->attrs@, weight_of(target.weights, "attrs"@))
        + seq![
        (Criterion::Depth(abs_diff(target.depth, cand.depth)), weight_of(target.weights, "depth"@)),
        (Criterion::TextLen(target.text_len, cand.text_len), weight_of(target.weights, "text_len"@)),
    ]
}

/// The comparison of element `el` with `target`, given what the
/// signature's regular expression says of the element's text (`None`
/// where there is no regular expression or it does not compile).
pub open spec fn comparison_given(
    target: SignatureView,
    t: DomModel,
    el: int,
    verdict: Option<bool>,
) -> ComparisonView {
    match verdict {
        Some(false) => ComparisonView::Rejected,
        Some(true) => ComparisonView::Scored(
            seq![(Criterion::Regex, weight_of(target.weights, "regex"@))] + criteria_after_regex(target, t, el),
        ),
        None => ComparisonView::Scored(criteria_after_regex(target, t, el)),
    }
}

/// What the signature's regular expression says of the text of `el`.
pub open spec fn regex_verdict_of(target: SignatureView, t: DomModel, el: int) -> Option<bool> {
    match target.regex {
        Some(p) => regex_search(p, element_text_of(t, el)),
        None => None,
    }
}

/// The comparison of element `el` with `target`.
pub open spec fn comparison_of(target: SignatureView, t: DomModel, el: int) -> ComparisonView {
    comparison_given(target, t, el, regex_verdict_of(target, t, el))
}


/// The matches of the expected token against each of `tokens`.
fn token_matches(expected: &str, tokens: &Vec<String>) -> (r: Vec<AttrMatch>)
    ensures
        r@ == string_views(tokens@).map_values(|v: Seq<char>| attr_match_of(expected@, v)),
        forall|j: int|
            0 <= j < r@.len() ==> (#[trigger] r@[j]).distance <= r@[j].length && (r@[j].distance
                == 0 <==> expected@ == tokens@[j]@),
{
    let len_e = str_chars(expected).len();
    let mut r: Vec<AttrMatch> = Vec::new();
    for i in 0..tokens.len()
        invariant
            len_e == expected@.len(),
            r@.len() == i,
            i <= tokens@.len(),
            forall|j: int| 0 <= j < i ==> #[trigger] r@[j] == attr_match_of(expected@, tokens@[j]@),
            forall|j: int|
                0 <= j < i ==> (#[trigger] r@[j]).distance <= r@[j].length && (r@[j].distance == 0
                    <==> expected@ == tokens@[j]@),
    {
        let tok = tokens[i].as_str();
        let len_v = str_chars(tok).len();
        let m = if len_e == 0 && len_v == 0 {
            assert(expected@ =~= tok@);
            AttrMatch { distance: 0, length: 0 }
        } else {
            AttrMatch {
                distance: damerau_levenshtein(expected, tok),
                length: if len_e >= len_v {
                    len_e
                } else {
                    len_v
                },
            }
        };
        r.push(m);
    }
    assert(r@ =~= string_views(tokens@).map_values(|v: Seq<char>| attr_match_of(expected@, v)));
    r
}

/// An attribute criterion's match is at a distance no greater than its
/// length: its score `1 - distance / length` lies in [0, 1].
pub open spec fn attr_in_range(c: Criterion) -> bool {
    match c {
        Criterion::Attr(Some(m)) => m.distance <= m.length,
        _ => true,
    }
}

/// Every attribute criterion of the comparison scores within [0, 1].
pub open spec fn comparison_in_range(cv: ComparisonView) -> bool {
    match cv {
        ComparisonView::Scored(cs) => forall|i: int|
            0 <= i < cs.len() ==> attr_in_range((#[trigger] cs[i]).0),
        ComparisonView::Rejected => true,
    }
}

/// An attribute criterion at distance 0 found the expected token itself
/// among `tokens`.
spec fn exact_found(c: Criterion, expected: Seq<char>, tokens: Seq<Seq<char>>) -> bool {
    match c {
        Criterion::Attr(Some(m)) => m.distance == 0 ==> tokens.contains(expected),
        _ => true,
    }
}

/// The criterion of one expected token.
fn token_criterion(expected: &str, tokens: &Vec<String>, w: u64) -> (r: (Criterion, u64))
    ensures
        r == (Criterion::Attr(token_best(expected@, string_views(tokens@))), w),
        attr_in_range(r.0),
        exact_found(r.0, expected@, string_views(tokens@)),
{
    let ms = token_matches(expected, tokens);
    let best = best_attr_match(ms.as_slice());
    proof {
        if let Some(b) = best {
            let i = choose|i: int| 0 <= i < ms@.len() && ms@[i] == b;
            assert(ms@[i].distance <= ms@[i].length);
            if b.distance == 0 {
                assert(string_views(tokens@)[i] == expected@);
            }
        }
    }
    (Criterion::Attr(best), w)
}

/// Appends the attribute criteria of the candidate with attributes
/// `cand` against the signature `target`.
fn push_attr_criteria(
    out: &mut Vec<(Criterion, u64)>,
    target: &Signature,
    cand: &Vec<Attribute>,
    w: u64,
)
    ensures
        final(out)@ == old(out)@ + attr_criteria(target@.attrs, cand@, w),
        forall|x: int|
            old(out)@.len() <= x < final(out)@.len() ==> attr_in_range((#[trigger] final(out)@[x]).0),
{
    let ghost base = out@;
    let ghost ta = target@.attrs;
    let mut i: usize = 0;
    assert(ta.take(0) =~= seq![]);
    assert(base + attr_criteria(ta.take(0), cand@, w) =~= base);
    while i < target.attrs.len()
        invariant
            ta == target@.attrs,
            ta.len() == target.attrs@.len(),
            i <= ta.len(),
            out@ == base + attr_criteria(ta.take(i as int), cand@, w),
            forall|x: int| base.len() <= x < out@.len() ==> attr_in_range((#[trigger] out@[x]).0),
        decreases target.attrs.len() - i,
    {
        let entry = &target.attrs[i];
        let found = find_attr(cand, entry.0.as_str());
        let tokens: Vec<String> = match found {
            Some(v) => normalise_attr_value(v.as_str()),
            None => Vec::new(),
        };
        let ghost toks = candidate_tokens(cand@, entry.0@);
        assert(string_views(tokens@) =~= toks);
        let ghost before = out@;
        let ghost exp = expected_tokens(entry.1@);
        match &entry.1 {
            AttrValue::Signle(s) => {
                let c = token_criterion(s.as_str(), &tokens, w);
                out.push(c);
                assert(token_criteria(exp, toks, w) =~= seq![c]);
                assert forall|x: int| base.len() <= x < out@.len() implies attr_in_range(
                    (#[trigger] out@[x]).0,
                ) by {
                    if x < before.len() {
                        assert(out@[x] == before[x]);
                    }
                }
            },
            AttrValue::List(l) => {
                let mut j: usize = 0;
                while j < l.len()
                    invariant
                        j <= l@.len(),
                        exp == string_views(l@),
                        string_views(tokens@) == toks,
                        out@ == before + token_criteria(exp, toks, w).take(j as int),
                        before.len() >= base.len(),
                        forall|x: int| base.len() <= x < out@.len() ==> attr_in_range((#[trigger] out@[x]).0),
                    decreases l.len() - j,
                {
                    let c = token_criterion(l[j].as_str(), &tokens, w);
                    let ghost prev = out@;
                    out.push(c);
                    assert forall|x: int| base.len() <= x < out@.len() implies attr_in_range(
                        (#[trigger] out@[x]).0,
                    ) by {
                        if x < prev.len() {
                            assert(out@[x] == prev[x]);
                        }
                    }
                    assert(token_criteria(exp, toks, w).take(j + 1) =~= token_criteria(
                        exp,
                        toks,
                        w,
                    ).take(j as int).push(c));
                    j = j + 1;
                }
                assert(token_criteria(exp, toks, w).take(j as int) =~= token_criteria(exp, toks, w));
            },
        }
        proof {
            assert(ta[i as int] == (entry.0@, entry.1@));
            assert(ta.take(i + 1).drop_last() =~= ta.take(i as int));
            assert(ta.take(i + 1).last() == ta[i as int]);
        }
        i = i + 1;
    }
    assert(ta.take(i as int) =~= ta);
}

/// Compares element `candidate` with `target`, given what the signature's
/// regular expression says of the element's text (`None` where there is
/// no regular expression or it does not compile).
pub fn compare_with_verdict(
    target: &Signature,
    dom: &Dom,
    candidate: usize,
    verdict: Option<bool>,
) -> (r: Comparison)
    requires
        signature_wf(target@),
        dom@.wf(),
        candidate < dom@.n(),
        dom@.is_element(candidate as int),
    ensures
        r@ == comparison_given(target@, dom@, candidate as int, verdict),
        comparison_in_range(r@),
{
    let mut out: Vec<(Criterion, u64)> = Vec::new();
    match verdict {
        Some(false) => {
            return Comparison::Rejected;
        },
        Some(true) => {
            out.push((Criterion::Regex, weight(target, "regex")));
        },
        None => {},
    }
    let ghost head = out@;
    let (name, attrs) = match dom.kind(candidate) {
        NodeKind::Element { name, attrs } => (name, attrs),
        _ => vstd::pervasive::unreached(),
    };
    let cand = compute_signature(dom, candidate);
    out.push(
        (
            Criterion::TagName(compare_html_tag_name(name.as_str(), target.tag_name.as_str())),
            weight(target, "tag_name"),
        ),
    );
    let w_attrs = weight(target, "attrs");
    push_attr_criteria(&mut out, target, attrs, w_attrs);
    let depth_diff = if target.depth >= cand.depth {
        target.depth - cand.depth
    } else {
        cand.depth - target.depth
    };
    out.push((Criterion::Depth(depth_diff), weight(target, "depth")));
    out.push((Criterion::TextLen(target.text_len, cand.text_len), weight(target, "text_len")));
    assert(out@ =~= head + criteria_after_regex(target@, dom@, candidate as int));
    assert forall|i: int| 0 <= i < out@.len() implies attr_in_range((#[trigger] out@[i]).0) by {}
    Comparison::Scored(out)
}

/// Compares element `candidate` with the signature `target`: where the
/// signature has a regular expression that compiles and does not match
/// the element's text, the element is rejected; else the criteria of the
/// comparison, each with its weight.
pub fn signature_criteria(target: &Signature, dom: &Dom, candidate: usize) -> (r: Comparison)
    requires
        signature_wf(target@),
        dom@.wf(),
        candidate < dom@.n(),
        dom@.is_element(candidate as int),
    ensures
        r@ == comparison_of(target@, dom@, candidate as int),
        comparison_in_range(r@),
{
    let verdict = match &target.regex {
        Some(p) => {
            let text = element_text(dom, candidate);
            regex_is_match(p.as_str(), text.as_str())
        },
        None => None,
    };
    compare_with_verdict(target, dom, candidate, verdict)
}


/// The criterion is met fully: the regular expression matches, the tag
/// names are the same, the attribute token is found as it is, the depths
/// and the text lengths are equal.
pub open spec fn is_perfect(c: Criterion) -> bool {
    match c {
        Criterion::Regex => true,
        Criterion::TagName(p) => p == 100,
        Criterion::Attr(m) => m matches Some(x) && x.distance == 0,
        Criterion::Depth(d) => d == 0,
        Criterion::TextLen(a, b) => a == b,
    }
}

/// Every criterion of the comparison is met fully, with the default weight.
pub open spec fn is_perfect_comparison(cv: ComparisonView) -> bool {
    match cv {
        ComparisonView::Scored(cs) => forall|i: int|
            0 <= i < cs.len() ==> is_perfect((#[trigger] cs[i]).0) && cs[i].1 == DEFAULT_WEIGHT,
        ComparisonView::Rejected => false,
    }
}

/// The names of the attributes are distinct.
pub open spec fn attr_names_distinct(attrs: Seq<Attribute>) -> bool {
    forall|i: int, j: int| 0 <= i < j < attrs.len() ==> (#[trigger] attrs[i]).name@ != (
    #[trigger] attrs[j]).name@
}

/// No attribute has a namespace.
pub open spec fn attrs_without_namespace(attrs: Seq<Attribute>) -> bool {
    forall|i: int| 0 <= i < attrs.len() ==> (#[trigger] attrs[i]).namespace@.len() == 0
}

/// No attribute is in a namespace: each is found by its bare name.
pub open spec fn plain_attrs(attrs: Seq<Attribute>) -> bool {
    attrs_without_namespace(attrs)
}

/// Whether no attribute of element `el` is in a namespace.
pub fn has_plain_attributes(dom: &Dom, el: usize) -> (r: bool)
    requires
        el < dom@.n(),
        dom@.is_element(el as int),
    ensures
        r == plain_attrs(dom@.kinds[el as int]->attrs@),
{
    let attrs = match dom.kind(el) {
        NodeKind::Element { attrs, .. } => attrs,
        _ => vstd::pervasive::unreached(),
    };
    let ghost a = attrs@;
    assert(a == dom@.kinds[el as int]->attrs@);
    let mut i: usize = 0;
    while i < attrs.len()
        invariant
            a == attrs@,
            el < dom@.n(),
            a == dom@.kinds[el as int]->attrs@,
            i <= a.len(),
            forall|x: int| 0 <= x < i ==> (#[trigger] a[x]).namespace@.len() == 0,
        decreases attrs.len() - i,
    {
        if !attrs[i].namespace.as_str().is_empty() {
            assert(a[i as int].namespace@.len() != 0);
            assert(!attrs_without_namespace(a));
            return false;
        }
        i = i + 1;
    }
    true
}

/// No attribute of any element of the document is in a namespace.
pub open spec fn page_plain(t: DomModel) -> bool {
    forall|x: int| 0 <= x < t.n() && t.is_element(x) ==> plain_attrs(#[trigger] t.kinds[x]->attrs@)
}

/// Whether no attribute of any element of the document is in a namespace.
pub fn page_has_plain_attributes(dom: &Dom) -> (r: bool)
    ensures
        r == page_plain(dom@),
{
    let n = dom.len();
    let mut x: usize = 0;
    while x < n
        invariant
            n == dom@.n(),
            x <= n,
            forall|y: int| 0 <= y < x && dom@.is_element(y) ==> plain_attrs(#[trigger] dom@.kinds[y]->attrs@),
        decreases n - x,
    {
        if dom.is_element(x) && !has_plain_attributes(dom, x) {
            return false;
        }
        x = x + 1;
    }
    true
}

/// Collecting attributes with distinct names by name keeps them all.
proof fn lemma_kept_all(attrs: Seq<Attribute>)
    requires
        attr_names_distinct(attrs),
    ensures
        kept_attrs(attrs) == attrs,
    decreases attrs.len(),
{
    if attrs.len() > 0 {
        let rest = attrs.drop_first();
        assert(attr_names_distinct(rest)) by {
            assert forall|i: int, j: int| 0 <= i < j < rest.len() implies (#[trigger] rest[i]).name@
                != (#[trigger] rest[j]).name@ by {
                assert(rest[i] == attrs[i + 1] && rest[j] == attrs[j + 1]);
            }
        }
        lemma_kept_all(rest);
        assert(!exists|j: int| 0 < j < attrs.len() && (#[trigger] attrs[j]).name@ == attrs[0].name@);
        assert(attrs =~= seq![attrs[0]] + rest);
    }
}

/// Looking up the name of an attribute finds that attribute.
proof fn lemma_find_own_attr(attrs: Seq<Attribute>, i: int)
    requires
        0 <= i < attrs.len(),
        attr_names_distinct(attrs),
        attrs_without_namespace(attrs),
    ensures
        attr_value_of(attrs, attrs[i].name@) == Some(attrs[i].value@),
    decreases i,
{
    if i > 0 {
        let rest = attrs.drop_first();
        assert(attrs[0].name@ != attrs[i].name@);
        assert(attr_names_distinct(rest)) by {
            assert forall|x: int, y: int| 0 <= x < y < rest.len() implies (#[trigger] rest[x]).name@
                != (#[trigger] rest[y]).name@ by {
                assert(rest[x] == attrs[x + 1] && rest[y] == attrs[y + 1]);
            }
        }
        assert(attrs_without_namespace(rest)) by {
            assert forall|x: int| 0 <= x < rest.len() implies (#[trigger] rest[x]).namespace@.len()
                == 0 by {
                assert(rest[x] == attrs[x + 1]);
            }
        }
        lemma_find_own_attr(rest, i - 1);
        assert(rest[i - 1] == attrs[i]);
    } else {
        assert(attrs[0].namespace@.len() == 0);
    }
}

/// Among matches one of which has distance 0, the best has distance 0.
proof fn lemma_best_exact(ms: Seq<AttrMatch>, j: int)
    requires
        0 <= j < ms.len(),
        ms[j].distance == 0,
    ensures
        best_of_matches(ms) matches Some(b) && b.distance == 0,
    decreases ms.len(),
{
    let last = ms.last();
    if j == ms.len() - 1 {
        assert(match_positive(last));
        if let Some(c) = best_of_matches(ms.drop_last()) {
            let (dc, n) = (c.distance as int, match_den(last));
            assert(dc > 0 ==> dc * n > 0) by (nonlinear_arith)
                requires
                    n >= 1,
            ;
        }
    } else {
        assert(ms.drop_last()[j] == ms[j]);
        lemma_best_exact(ms.drop_last(), j);
    }
}

/// The signature's entry for an attribute is a list of tokens, and those
/// are the candidate's tokens of that attribute.
spec fn tokens_found(cand: Seq<Attribute>, entry: (Seq<char>, AttrValueView)) -> bool {
    match entry.1 {
        AttrValueView::List(l) => candidate_tokens(cand, entry.0) == l,
        AttrValueView::Signle(_) => false,
    }
}

/// The attribute criteria are all met fully, with weight `w`, where the
/// candidate's tokens of each attribute are the expected ones.
proof fn lemma_attr_criteria_perfect(
    target: Seq<(Seq<char>, AttrValueView)>,
    cand: Seq<Attribute>,
    w: u64,
)
    requires
        forall|i: int| 0 <= i < target.len() ==> tokens_found(cand, #[trigger] target[i]),
    ensures
        forall|i: int|
            0 <= i < attr_criteria(target, cand, w).len() ==> is_perfect(
                (#[trigger] attr_criteria(target, cand, w)[i]).0,
            ) && attr_criteria(target, cand, w)[i].1 == w,
    decreases target.len(),
{
    if target.len() > 0 {
        let init = target.drop_last();
        assert forall|i: int| 0 <= i < init.len() implies tokens_found(cand, #[trigger] init[i]) by {
            assert(init[i] == target[i]);
        }
        lemma_attr_criteria_perfect(init, cand, w);
        let last = target.last();
        assert(target[target.len() - 1] == last);
        let toks = candidate_tokens(cand, last.0);
        let tc = token_criteria(expected_tokens(last.1), toks, w);
        assert forall|x: int| 0 <= x < tc.len() implies is_perfect((#[trigger] tc[x]).0) && tc[x].1
            == w by {
            let e = toks[x];
            let ms = toks.map_values(|v: Seq<char>| attr_match_of(e, v));
            assert(ms[x] == attr_match_of(e, e));
            lemma_best_exact(ms, x);
        }
        let all = attr_criteria(target, cand, w);
        let head = attr_criteria(init, cand, w);
        assert(all == head + tc);
        assert forall|i: int| 0 <= i < all.len() implies is_perfect((#[trigger] all[i]).0) && all[i].1
            == w by {
            if i < head.len() {
                assert(all[i] == head[i]);
            } else {
                assert(all[i] == tc[i - head.len()]);
            }
        }
    }
}

/// An element compared with its own signature meets every criterion
/// fully, each with the default weight; this holds where no attribute of
/// the element is in a namespace (an attribute in a namespace is not found
/// by its bare name; `has_plain_attributes` checks this).
pub proof fn lemma_own_signature_perfect(t: DomModel, el: int)
    requires
        t.wf(),
        0 <= el < t.n(),
        t.is_element(el),
        plain_attrs(t.kinds[el]->attrs@),
    ensures
        is_perfect_comparison(comparison_of(signature_view_of(t, el), t, el)),
{
    let sig = signature_view_of(t, el);
    let attrs = t.kinds[el]->attrs@;
    assert(kind_ok(t.kinds[el]));
    assert(attr_names_distinct(attrs));
    lemma_kept_all(attrs);
    lemma_tag_similarity(t.kinds[el]->name@, t.kinds[el]->name@);
    assert forall|i: int| 0 <= i < sig.attrs.len() implies tokens_found(attrs, #[trigger] sig.attrs[i]) by {
        assert(sig.attrs[i] == attr_entry(attrs[i]));
        lemma_find_own_attr(attrs, i);
    }
    lemma_attr_criteria_perfect(sig.attrs, attrs, DEFAULT_WEIGHT);
    let ac = attr_criteria(sig.attrs, attrs, DEFAULT_WEIGHT);
    let cs = criteria_after_regex(sig, t, el);
    let head = seq![(Criterion::TagName(tag_similarity(t.kinds[el]->name@, sig.tag_name)), DEFAULT_WEIGHT)];
    let tail = seq![
        (Criterion::Depth(abs_diff(sig.depth, sig.depth)), DEFAULT_WEIGHT),
        (Criterion::TextLen(sig.text_len, sig.text_len), DEFAULT_WEIGHT),
    ];
    assert(cs == head + ac + tail);
    assert forall|i: int| 0 <= i < cs.len() implies is_perfect((#[trigger] cs[i]).0) && cs[i].1
        == DEFAULT_WEIGHT by {
        if i == 0 {
        } else if i < 1 + ac.len() {
            assert(cs[i] == ac[i - 1]);
        } else {
            assert(cs[i] == tail[i - 1 - ac.len()]);
        }
    }
}


/// A comparison that is not rejected ends with the depth criterion, the
/// distance between the two depths, and the text-length criterion, the two
/// text lengths; it is rejected exactly when the regular expression does
/// not match.
pub proof fn lemma_depth_and_length_criteria(
    target: SignatureView,
    t: DomModel,
    el: int,
    verdict: Option<bool>,
)
    ensures
        (verdict == Some(false)) == (comparison_given(target, t, el, verdict) is Rejected),
        verdict != Some(false) ==> ({
            let cs = comparison_given(target, t, el, verdict)->Scored_0;
            let c = signature_view_of(t, el);
            &&& cs.len() >= 3
            &&& cs[cs.len() - 2].0 == Criterion::Depth(
                (if target.depth >= c.depth {
                    target.depth - c.depth
                } else {
                    c.depth - target.depth
                }) as u32,
            )
            &&& (cs[cs.len() - 2].0 == Criterion::Depth(0)) == (target.depth == c.depth)
            &&& cs[cs.len() - 1].0 == Criterion::TextLen(target.text_len, c.text_len)
        }),
{
    if verdict != Some(false) {
        let cs = comparison_given(target, t, el, verdict)->Scored_0;
        let after = criteria_after_regex(target, t, el);
        let c = signature_view_of(t, el);
        assert(after.len() >= 3);
        assert(after[after.len() - 2].0 == Criterion::Depth(abs_diff(target.depth, c.depth)));
        assert(after[after.len() - 1].0 == Criterion::TextLen(target.text_len, c.text_len));
        if verdict == Some(true) {
            let head = seq![(Criterion::Regex, weight_of(target.weights, "regex"@))];
            assert(cs == head + after);
            assert(cs[cs.len() - 2] == after[after.len() - 2]);
            assert(cs[cs.len() - 1] == after[after.len() - 1]);
        }
    }
}

/// The key under which a signature weighs a criterion.
pub open spec fn weight_key(c: Criterion) -> Seq<char> {
    match c {
        Criterion::Regex => "regex"@,
        Criterion::TagName(_) => "tag_name"@,
        Criterion::Attr(_) => "attrs"@,
        Criterion::Depth(_) => "depth"@,
        Criterion::TextLen(_, _) => "text_len"@,
    }
}

/// The weight looked up for a key is the value of the entry for that key,
/// or the default weight where there is none.
proof fn lemma_weight_of_entry(ws: Seq<(Seq<char>, u64)>, key: Seq<char>)
    requires
        names_unique(ws),
    ensures
        forall|j: int| 0 <= j < ws.len() && (#[trigger] ws[j]).0 == key ==> weight_of(ws, key) == ws[j].1,
        (forall|j: int| 0 <= j < ws.len() ==> (#[trigger] ws[j]).0 != key) ==> weight_of(ws, key)
            == DEFAULT_WEIGHT,
    decreases ws.len(),
{
    if ws.len() > 0 {
        let rest = ws.drop_first();
        assert(names_unique(rest)) by {
            assert forall|i: int, j: int| 0 <= i < j < rest.len() implies (#[trigger] rest[i]).0 != (
            #[trigger] rest[j]).0 by {
                assert(rest[i] == ws[i + 1] && rest[j] == ws[j + 1]);
            }
        }
        lemma_weight_of_entry(rest, key);
        assert forall|j: int| 0 <= j < ws.len() && (#[trigger] ws[j]).0 == key implies weight_of(ws, key)
            == ws[j].1 by {
            if j > 0 {
                assert(ws[0].0 != ws[j].0);
                assert(rest[j - 1] == ws[j]);
            }
        }
        if forall|j: int| 0 <= j < ws.len() ==> (#[trigger] ws[j]).0 != key {
            assert forall|j: int| 0 <= j < rest.len() implies (#[trigger] rest[j]).0 != key by {
                assert(rest[j] == ws[j + 1]);
            }
            assert(ws[0].0 != key);
        }
    }
}

/// Every attribute criterion is one, with weight `w`.
proof fn lemma_attr_criteria_weight(target: Seq<(Seq<char>, AttrValueView)>, cand: Seq<Attribute>, w: u64)
    ensures
        forall|i: int|
            0 <= i < attr_criteria(target, cand, w).len() ==> (#[trigger] attr_criteria(target, cand, w)[i]).0 is Attr
                && attr_criteria(target, cand, w)[i].1 == w,
    decreases target.len(),
{
    if target.len() > 0 {
        lemma_attr_criteria_weight(target.drop_last(), cand, w);
        let head = attr_criteria(target.drop_last(), cand, w);
        let tc = token_criteria(
            expected_tokens(target.last().1),
            candidate_tokens(cand, target.last().0),
            w,
        );
        let all = attr_criteria(target, cand, w);
        assert(all == head + tc);
        assert forall|i: int| 0 <= i < all.len() implies (#[trigger] all[i]).0 is Attr && all[i].1 == w by {
            if i < head.len() {
                assert(all[i] == head[i]);
            } else {
                assert(all[i] == tc[i - head.len()]);
            }
        }
    }
}

/// Each criterion carries the signature's weight for its key ("regex",
/// "tag_name", "attrs" for every attribute criterion, "depth",
/// "text_len"), and the weight 1.0 where the signature has no entry for
/// that key.
pub proof fn lemma_criteria_weights(
    target: SignatureView,
    t: DomModel,
    el: int,
    verdict: Option<bool>,
)
    requires
        signature_wf(target),
        verdict != Some(false),
    ensures
        ({
            let cs = comparison_given(target, t, el, verdict)->Scored_0;
            &&& forall|i: int, j: int|
                0 <= i < cs.len() && 0 <= j < target.weights.len() && target.weights[j].0
                    == weight_key(#[trigger] cs[i].0) ==> cs[i].1 == (#[trigger] target.weights[j]).1
            &&& forall|i: int|
                0 <= i < cs.len() && (forall|j: int|
                    0 <= j < target.weights.len() ==> (#[trigger] target.weights[j]).0 != weight_key(
                        cs[i].0,
                    )) ==> (#[trigger] cs[i]).1 == 0x3FF0_0000_0000_0000u64
        }),
{
    let cs = comparison_given(target, t, el, verdict)->Scored_0;
    let ws = target.weights;
    let after = criteria_after_regex(target, t, el);
    let ac = attr_criteria(target.attrs, t.kinds[el]->attrs@, weight_of(ws, "attrs"@));
    lemma_attr_criteria_weight(target.attrs, t.kinds[el]->attrs@, weight_of(ws, "attrs"@));
    assert forall|i: int| 0 <= i < after.len() implies (#[trigger] after[i]).1 == weight_of(
        ws,
        weight_key(after[i].0),
    ) by {
        if 1 <= i < 1 + ac.len() {
            assert(after[i] == ac[i - 1]);
        }
    }
    assert forall|i: int| 0 <= i < cs.len() implies (#[trigger] cs[i]).1 == weight_of(
        ws,
        weight_key(cs[i].0),
    ) by {
        if verdict == Some(true) {
            assert(cs == seq![(Criterion::Regex, weight_of(ws, "regex"@))] + after);
            if i > 0 {
                assert(cs[i] == after[i - 1]);
            }
        } else {
            assert(cs == after);
        }
    }
    assert forall|i: int, j: int|
        0 <= i < cs.len() && 0 <= j < ws.len() && ws[j].0 == weight_key(#[trigger] cs[i].0) implies cs[i].1
        == (#[trigger] ws[j]).1 by {
        lemma_weight_of_entry(ws, weight_key(cs[i].0));
    }
    assert forall|i: int|
        0 <= i < cs.len() && (forall|j: int|
            0 <= j < ws.len() ==> (#[trigger] ws[j]).0 != weight_key(cs[i].0)) implies (#[trigger] cs[i]).1
        == 0x3FF0_0000_0000_0000u64 by {
        lemma_weight_of_entry(ws, weight_key(cs[i].0));
    }
}

} // verus!
