use furas::compare::{
    best_attr_match, compare_with_verdict, element_text, signature_criteria, AttrMatch, Comparison,
    Criterion, DEFAULT_WEIGHT,
};
use furas::dom::Dom;
use furas::selector::select_first;
use furas::signature::{compute_signature, AttrValue, Signature};

fn select(dom: &Dom, selector: &str) -> usize {
    let root = dom.root_element().unwrap();
    select_first(dom, root, selector).unwrap().unwrap()
}

fn m(distance: usize, length: usize) -> AttrMatch {
    AttrMatch { distance, length }
}

fn scored(c: Comparison) -> Vec<(Criterion, u64)> {
    match c {
        Comparison::Scored(v) => v,
        Comparison::Rejected => panic!("rejected"),
    }
}

fn bare_signature(tag_name: &str) -> Signature {
    Signature {
        tag_name: tag_name.to_string(),
        attrs: Vec::new(),
        depth: 0,
        has_children: false,
        index_in_parent: 0,
        text_len: 0,
        regex: None,
        weights: Vec::new(),
        meta: Vec::new(),
    }
}

const PAGE: &str = "<html><body><div class=\"card h-100\"><h5 id=\"t\">Fancy Product</h5>$40.00</div><p>free</p></body></html>";

#[test]
fn best_attr_match_picks_highest_score() {
    // scores 0.5, 0.75, 0.5
    assert_eq!(best_attr_match(&[m(2, 4), m(1, 4), m(1, 2)]), Some(m(1, 4)));
    // equal scores keep the first
    assert_eq!(best_attr_match(&[m(1, 2), m(2, 4)]), Some(m(1, 2)));
    assert_eq!(best_attr_match(&[m(2, 4), m(1, 2)]), Some(m(2, 4)));
    // two empty tokens score 1
    assert_eq!(best_attr_match(&[m(1, 4), m(0, 0)]), Some(m(0, 0)));
    // a score of 0 is no match
    assert_eq!(best_attr_match(&[m(3, 3), m(5, 4)]), None);
    assert_eq!(best_attr_match(&[]), None);
    assert_eq!(best_attr_match(&[m(3, 3), m(2, 3)]), Some(m(2, 3)));
}

#[test]
fn element_text_joins_with_spaces() {
    let dom = Dom::parse("<html><body><div>a<span>b</span>c<i></i></div><p></p></body></html>");
    let div = select(&dom, "div");
    assert_eq!(element_text(&dom, div), "a b c");
    let p = select(&dom, "p");
    assert_eq!(element_text(&dom, p), "");
}

#[test]
fn own_signature_is_met_fully() {
    let dom = Dom::parse(PAGE);
    for sel in ["div", "h5", "p", "body"] {
        let el = select(&dom, sel);
        let sig = compute_signature(&dom, el);
        let crit = scored(signature_criteria(&sig, &dom, el));
        assert!(!crit.is_empty());
        for (c, w) in crit {
            assert_eq!(w, DEFAULT_WEIGHT);
            match c {
                Criterion::Regex => {}
                Criterion::TagName(p) => assert_eq!(p, 100),
                Criterion::Attr(a) => assert_eq!(a.map(|x| x.distance), Some(0)),
                Criterion::Depth(d) => assert_eq!(d, 0),
                Criterion::TextLen(a, b) => assert_eq!(a, b),
            }
        }
    }
}

#[test]
fn criteria_in_order() {
    let dom = Dom::parse(PAGE);
    let div = select(&dom, "div");
    let h5 = select(&dom, "h5");
    let sig = compute_signature(&dom, div);
    let crit = scored(signature_criteria(&sig, &dom, h5));
    // tag name, the two class tokens ("card", "h-100"), depth, text length
    assert_eq!(crit.len(), 5);
    assert_eq!(crit[0], (Criterion::TagName(0), DEFAULT_WEIGHT));
    // h5 has no class attribute: no token matches
    assert_eq!(crit[1], (Criterion::Attr(None), DEFAULT_WEIGHT));
    assert_eq!(crit[2], (Criterion::Attr(None), DEFAULT_WEIGHT));
    assert_eq!(crit[3], (Criterion::Depth(1), DEFAULT_WEIGHT));
    // "Fancy Product$40.00" is 19 bytes, "Fancy Product" 13
    assert_eq!(crit[4], (Criterion::TextLen(19, 13), DEFAULT_WEIGHT));
}

#[test]
fn attribute_tokens_by_distance() {
    let dom = Dom::parse("<html><body><div class=\"cool mb-5\"></div></body></html>");
    let div = select(&dom, "div");
    let mut sig = bare_signature("div");
    sig.attrs.push((
        "class".to_string(),
        AttrValue::List(vec!["col".to_string(), "zzzzzzzz".to_string()]),
    ));
    sig.attrs.push(("id".to_string(), AttrValue::Signle("main".to_string())));
    let crit = scored(signature_criteria(&sig, &dom, div));
    assert_eq!(crit[0].0, Criterion::TagName(100));
    // "col" against "cool" (distance 1, length 4) and "mb-5" (4, 4)
    assert_eq!(crit[1].0, Criterion::Attr(Some(m(1, 4))));
    // nothing is close to "zzzzzzzz"
    assert_eq!(crit[2].0, Criterion::Attr(None));
    // no id attribute
    assert_eq!(crit[3].0, Criterion::Attr(None));
    assert_eq!(crit[4].0, Criterion::Depth(2));
    assert_eq!(crit[5].0, Criterion::TextLen(0, 0));
    assert_eq!(crit.len(), 6);
}

#[test]
fn weights_come_from_the_signature() {
    let dom = Dom::parse(PAGE);
    let div = select(&dom, "div");
    let mut sig = bare_signature("div");
    let two = 2.0f64.to_bits();
    let half = 0.5f64.to_bits();
    sig.weights.push(("tag_name".to_string(), two));
    sig.weights.push(("depth".to_string(), half));
    let crit = scored(signature_criteria(&sig, &dom, div));
    assert_eq!(crit[0], (Criterion::TagName(100), two));
    assert_eq!(crit[1].1, half);
    assert_eq!(crit[2].1, DEFAULT_WEIGHT);
}

#[test]
fn regex_gates_the_comparison() {
    let dom = Dom::parse(PAGE);
    let div = select(&dom, "div");
    let p = select(&dom, "p");
    let mut sig = compute_signature(&dom, div);
    sig.regex = Some(r"\$\d+\.\d+".to_string());
    sig.weights.push(("regex".to_string(), 3.0f64.to_bits()));

    let crit = scored(signature_criteria(&sig, &dom, div));
    assert_eq!(crit[0], (Criterion::Regex, 3.0f64.to_bits()));
    assert_eq!(crit[1].0, Criterion::TagName(100));

    assert!(matches!(signature_criteria(&sig, &dom, p), Comparison::Rejected));

    // a pattern that does not compile is ignored
    sig.regex = Some("(".to_string());
    let crit = scored(signature_criteria(&sig, &dom, p));
    assert_eq!(crit[0].0, Criterion::TagName(0));
}

#[test]
fn verdict_decides_rejection() {
    let dom = Dom::parse(PAGE);
    let div = select(&dom, "div");
    let sig = compute_signature(&dom, div);
    assert!(matches!(compare_with_verdict(&sig, &dom, div, Some(false)), Comparison::Rejected));
    let with = scored(compare_with_verdict(&sig, &dom, div, Some(true)));
    let without = scored(compare_with_verdict(&sig, &dom, div, None));
    assert_eq!(with[0], (Criterion::Regex, DEFAULT_WEIGHT));
    assert_eq!(with[1..].to_vec(), without);
}

#[test]
fn plain_attribute_checks() {
    let dom = Dom::parse("<html><body><div id=\"a\" class=\"b\"></div><svg><a xlink:href=\"#x\"></a></svg></body></html>");
    let div = select(&dom, "div");
    assert!(furas::compare::has_plain_attributes(&dom, div));
    let root = dom.root_element().unwrap();
    assert!(furas::compare::has_plain_attributes(&dom, root));
    // the link inside svg has an attribute in the xlink namespace
    let n = dom.len();
    let link = (0..n)
        .find(|&i| matches!(dom.kind(i), furas::dom::NodeKind::Element { attrs, .. } if attrs.iter().any(|a| !a.namespace.is_empty())))
        .unwrap();
    assert!(!furas::compare::has_plain_attributes(&dom, link));
    assert!(!furas::compare::page_has_plain_attributes(&dom));
    assert!(furas::compare::page_has_plain_attributes(&Dom::parse(PAGE)));
}

#[test]
fn attribute_scores_within_range() {
    let dom = Dom::parse("<html><body><div class=\"col mb-5\"></div><p class=\"a\" id=\"xyz\"></p><span class=\"\"></span></body></html>");
    let div = select(&dom, "div");
    let mut sig = compute_signature(&dom, div);
    sig.attrs.push(("id".to_string(), AttrValue::List(vec!["abcdefgh".to_string(), String::new()])));
    for i in 0..dom.len() {
        if !dom.is_element(i) {
            continue;
        }
        if let Comparison::Scored(v) = signature_criteria(&sig, &dom, i) {
            for (c, _) in v {
                if let Criterion::Attr(Some(m)) = c {
                    assert!(m.distance <= m.length);
                }
            }
        }
    }
    // a token at distance 0 is the expected token itself
    let p = select(&dom, "p");
    let crit = scored(signature_criteria(&sig, &dom, p));
    assert!(crit.iter().all(|(c, _)| !matches!(c, Criterion::Attr(Some(AttrMatch { distance: 0, .. })))));
}
