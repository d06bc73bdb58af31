use furas::compare::{Comparison, Criterion};
use furas::dom::{Dom, NodeKind};
use furas::score::{
    find_best_signature_matches, find_signature_matches, ScoreKey, ScoredElement, MATCH_THRESHOLD,
};
use furas::selector::select_first;
use furas::signature::{compute_signature, normalise_attr_value, AttrValue, Signature};

fn product(name: &str, price: &str) -> String {
    format!(
        "<div class=\"col mb-5\">\
           <div class=\"card h-100\">\
             <img class=\"card-img-top\" src=\"item.jpg\" alt=\"...\">\
             <div class=\"card-body p-4\"><div class=\"text-center\">\
               <h5 class=\"fw-bolder\">{}</h5>{}</div></div>\
             <div class=\"card-footer p-4\"><div class=\"text-center\">\
               <a class=\"btn btn-outline-dark\" href=\"#\">View options</a></div></div>\
           </div>\
         </div>",
        name, price
    )
}

fn shop_page() -> String {
    let items = [
        ("Fancy Product", "$40.00 - $80.00"),
        ("Special Item", "$18.00"),
        ("Sale Item", "$25.00"),
        ("Popular Item", "$40.00"),
        ("Sale Item", "$25.00"),
        ("Fancy Product", "$120.00 - $280.00"),
        ("Special Item", "$18.00"),
        ("Popular Item", "$40.00"),
    ];
    let mut body = String::new();
    for (n, p) in items.iter() {
        body.push_str(&product(n, p));
    }
    format!(
        "<!DOCTYPE html><html lang=\"en\"><head>\
           <meta charset=\"utf-8\"><meta name=\"viewport\" content=\"width=device-width\">\
           <meta name=\"description\" content=\"\"><meta name=\"author\" content=\"\">\
           <title>Shop Homepage</title><link rel=\"icon\" href=\"favicon.ico\">\
           <link href=\"icons.css\" rel=\"stylesheet\"><link href=\"styles.css\" rel=\"stylesheet\">\
         </head><body>\
           <nav class=\"navbar\"><a class=\"navbar-brand\" href=\"#\">Shop</a></nav>\
           <section class=\"py-5\"><div class=\"container px-4 mt-5\"><div class=\"row gx-4\">{}</div></div></section>\
           <footer class=\"py-5 bg-dark\"><div class=\"container\"><p class=\"m-0\">Copyright</p></div></footer>\
         </body></html>",
        body
    )
}

fn select(dom: &Dom, selector: &str) -> usize {
    let root = dom.root_element().unwrap();
    select_first(dom, root, selector).unwrap().unwrap()
}

fn softmax(base_exp: f64, a: f64, b: f64) -> f64 {
    let m = a.max(b) * base_exp;
    let ea = (base_exp * a - m).exp();
    let eb = (base_exp * b - m).exp();
    ea / (ea + eb)
}

fn softmax_diff(base_exp: f64, a: f64, b: f64) -> f64 {
    let x = softmax(base_exp, a, b);
    f64::clamp(2.0 * f64::min(x, 1.0 - x), 0., 1.)
}

fn criterion_score(c: &Criterion) -> f64 {
    match *c {
        Criterion::Regex => 1.0,
        Criterion::TagName(p) => p as f64 / 100.0,
        Criterion::Attr(None) => 0.0,
        Criterion::Attr(Some(m)) => {
            if m.length == 0 {
                1.0
            } else {
                1.0 - m.distance as f64 / m.length as f64
            }
        }
        Criterion::Depth(d) => f64::clamp(1.0 - (d as f64 * 0.2), 0.0, 1.0),
        Criterion::TextLen(a, b) => softmax_diff(0.2, a as f64, b as f64),
    }
}

fn evaluate(c: &Comparison) -> f64 {
    match c {
        Comparison::Rejected => 0.0,
        Comparison::Scored(v) => {
            let mut total_score = 0f64;
            let mut total_weight = 0f64;
            for (c, w) in v {
                let w = f64::from_bits(*w);
                total_score += criterion_score(c) * w;
                total_weight += w;
            }
            total_score / total_weight
        }
    }
}

fn key(x: f64) -> ScoreKey {
    if x.is_nan() {
        return None;
    }
    let x = if x == 0.0 { 0.0 } else { x };
    let b = x.to_bits();
    Some(if b >> 63 == 0 { b | (1 << 63) } else { !b })
}

fn scorer(c: &Comparison) -> ScoreKey {
    key(evaluate(c))
}

fn attr<'a>(dom: &'a Dom, el: usize, name: &str) -> Option<&'a str> {
    match dom.kind(el) {
        NodeKind::Element { attrs, .. } => attrs
            .iter()
            .find(|a| a.namespace.is_empty() && a.name == name)
            .map(|a| a.value.as_str()),
        _ => None,
    }
}

fn tag(dom: &Dom, el: usize) -> &str {
    match dom.kind(el) {
        NodeKind::Element { name, .. } => name.as_str(),
        _ => "",
    }
}

#[test]
fn signature_generation() {
    let page = shop_page();
    let dom = Dom::parse(&page);

    let el = select(&dom, "div.col:nth-child(1)");
    let signature = compute_signature(&dom, el);

    assert_eq!(signature.tag_name, "div");
    assert_eq!(signature.depth, 5);
    assert_eq!(signature.index_in_parent, 0);
    assert_eq!(signature.has_children, true);

    let next_el = select(&dom, "div.col:nth-child(2)");
    let next_signature = compute_signature(&dom, next_el);

    assert_eq!(next_signature.tag_name, "div");
    assert_eq!(next_signature.depth, 5);
    assert_eq!(next_signature.index_in_parent, 1);
    assert_eq!(next_signature.has_children, true);
}

#[test]
fn signature_similarity() {
    let page = shop_page();
    let dom = Dom::parse(&page);

    let el = select(&dom, "div.col:nth-child(1)");
    let signature = compute_signature(&dom, el);
    let next_el = select(&dom, "div.col:nth-child(2)");

    let score = evaluate(&furas::compare::signature_criteria(&signature, &dom, el));
    let next_score = evaluate(&furas::compare::signature_criteria(&signature, &dom, next_el));
    println!("score: {}, next_score: {}", score, next_score);
    assert_eq!(score, 1.0);
    assert!(next_score < score);
    assert!(next_score >= 0.75);
}

#[test]
fn find_signature_test() {
    let page = shop_page();
    let dom = Dom::parse(&page);
    let root = dom.root_element().unwrap();

    let el = select(&dom, "div.col:nth-child(1)");
    let signature = compute_signature(&dom, el);

    let matches = find_signature_matches(&dom, root, &[("group", &signature)], &scorer);
    assert_eq!(matches.len(), 1);
    assert_eq!(matches[0].0, "group");
    let groups = matches[0].1.as_slice();
    assert_eq!(groups.len(), 8);

    for scored_el in groups.iter() {
        let el = scored_el.1;
        assert_eq!(tag(&dom, el), "div");
        assert_eq!(attr(&dom, el, "class"), Some("col mb-5"));
    }

    let best_matching = find_best_signature_matches(&dom, root, &[("first_item", &signature)], &scorer);
    assert_eq!(best_matching.len(), 1);
    assert_eq!(best_matching[0].0, "first_item");
    assert_eq!(best_matching[0].1 .1, el);
    // the best match scores at least 0.75, so it is among the matches
    assert!(groups.iter().any(|g| g.1 == best_matching[0].1 .1 && g.0 == best_matching[0].1 .0));
}

#[test]
fn nan_first_stays_best() {
    let dom = Dom::parse("<html><body><div>x</div></body></html>");
    let root = dom.root_element().unwrap();
    let div = select(&dom, "div");
    let sig = compute_signature(&dom, div);
    // NaN for every element but the div, which scores 1
    let f = |c: &Comparison| -> ScoreKey {
        match c {
            Comparison::Scored(v) if v.iter().any(|(c, _)| *c == Criterion::TagName(100)) => key(1.0),
            _ => key(f64::NAN),
        }
    };
    let m = find_signature_matches(&dom, root, &[("d", &sig)], &f);
    assert_eq!(m[0].1.len(), 1);
    assert_eq!(m[0].1[0].1, div);
    // the root element comes first with NaN, which no score beats
    let best = find_best_signature_matches(&dom, root, &[("d", &sig)], &f);
    assert_eq!(best[0].1 .1, root);
    assert_eq!(best[0].1 .0, None);
}

#[test]
fn signature_of_element_fields() {
    let dom = Dom::parse("<html><body><div id=\"x\" class=\" b  a\tc \">héllo<span>!</span></div><p></p></body></html>");
    let div = select(&dom, "div");
    let sig = compute_signature(&dom, div);
    assert_eq!(sig.tag_name, "div");
    // document > html > body > div: two element levels above besides the document
    assert_eq!(sig.depth, 2);
    assert_eq!(sig.index_in_parent, 0);
    assert!(sig.has_children);
    // "héllo" is 6 bytes, "!" 1
    assert_eq!(sig.text_len, 7);
    assert!(sig.regex.is_none());
    assert!(sig.weights.is_empty());
    assert!(sig.meta.is_empty());
    assert_eq!(sig.attrs.len(), 2);
    assert_eq!(sig.attrs[0].0, "id");
    assert!(matches!(&sig.attrs[0].1, AttrValue::List(v) if v == &vec!["x".to_string()]));
    assert_eq!(sig.attrs[1].0, "class");
    assert!(matches!(&sig.attrs[1].1, AttrValue::List(v) if v == &vec!["a".to_string(), "b".to_string(), "c".to_string()]));

    let p = select(&dom, "p");
    let psig = compute_signature(&dom, p);
    assert_eq!(psig.index_in_parent, 1);
    assert!(!psig.has_children);
    assert_eq!(psig.text_len, 0);
}

#[test]
fn normalise_splits_and_sorts() {
    assert_eq!(normalise_attr_value(" b  a\tc "), vec!["a", "b", "c"]);
    assert_eq!(normalise_attr_value("col mb-5"), vec!["col", "mb-5"]);
    assert_eq!(normalise_attr_value("mb-5 col mb-5"), vec!["col", "mb-5", "mb-5"]);
    assert_eq!(normalise_attr_value("Zeta alpha"), vec!["Zeta", "alpha"]);
    assert!(normalise_attr_value("").is_empty());
    assert!(normalise_attr_value(" \n\t ").is_empty());
}

#[test]
fn match_threshold_is_three_quarters() {
    assert_eq!(key(0.75), Some(MATCH_THRESHOLD));
    assert!(furas::score::score_matches(key(0.75)));
    assert!(furas::score::score_matches(key(1.0)));
    assert!(!furas::score::score_matches(key(0.7499)));
    assert!(!furas::score::score_matches(key(f64::NAN)));
    assert!(furas::score::score_greater(key(0.8), key(0.75)));
    assert!(!furas::score::score_greater(key(0.75), key(0.75)));
    assert!(!furas::score::score_greater(key(0.8), key(f64::NAN)));
    assert!(!furas::score::score_greater(key(f64::NAN), key(0.8)));
}

#[test]
fn matches_only_above_threshold() {
    let dom = Dom::parse("<html><body><div class=\"a\">x</div><div class=\"a\">y</div><span>z</span></body></html>");
    let root = dom.root_element().unwrap();
    let div = select(&dom, "div");
    let sig = compute_signature(&dom, div);
    // a scorer that accepts only what matches the tag name fully
    let by_tag = |c: &Comparison| -> ScoreKey {
        match c {
            Comparison::Scored(v) if v.iter().any(|(c, _)| *c == Criterion::TagName(100)) => key(1.0),
            _ => key(0.5),
        }
    };
    let m = find_signature_matches(&dom, root, &[("d", &sig)], &by_tag);
    assert_eq!(m.len(), 1);
    let els: Vec<usize> = m[0].1.iter().map(|s: &ScoredElement| s.1).collect();
    // the two divs, in document order
    assert_eq!(els.len(), 2);
    assert_eq!(els[0], div);
    assert!(m[0].1.iter().all(|s| s.0 == key(1.0)));

    let none = find_signature_matches(&dom, root, &[("d", &sig)], &|_: &Comparison| key(0.1));
    assert!(none.is_empty());

    // the best match keeps the first of equal scores, in document order
    let best = find_best_signature_matches(&dom, root, &[("d", &sig)], &|_: &Comparison| key(0.1));
    assert_eq!(best.len(), 1);
    assert_eq!(best[0].1 .1, root);
}

#[test]
fn normalise_uses_unicode_white_space() {
    // U+3000 and U+00A0 are White_Space; U+200B (zero width space) is not
    assert_eq!(normalise_attr_value("b\u{3000}a\u{a0}c"), vec!["a", "b", "c"]);
    assert_eq!(normalise_attr_value("a\u{200b}b"), vec!["a\u{200b}b"]);
    assert_eq!(normalise_attr_value("x\u{85}y\u{2029}z"), vec!["x", "y", "z"]);
}

#[test]
fn normalise_is_idempotent() {
    for s in [" b  a\tc ", "mb-5 col", "", "z\u{3000}y x"] {
        let once = normalise_attr_value(s);
        let twice = normalise_attr_value(&once.join(" "));
        assert_eq!(once, twice);
    }
}
