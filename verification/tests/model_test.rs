use furas::compare::{Comparison, Criterion};
use furas::dom::{Dom, NodeKind};
use furas::model::{
    extract_fields, generate_model, generate_model_str, FieldSelector, FieldSignature, FieldSpec,
    MatchScore, MatchValue,
};
use furas::score::{find_signature_matches, ScoreKey};
use furas::selector::select_first;

fn product(name: &str, price: &str) -> String {
    format!(
        "<div class=\"col mb-5\">\
           <div class=\"card h-100\">\
             <img class=\"card-img-top\" src=\"item.jpg\" alt=\"...\">\
             <div class=\"card-body p-4\"><div class=\"text-center\">\
               <h5 class=\"fw-bolder\">{}</h5>{}</div></div>\
             <div class=\"card-footer p-4\"><div class=\"text-center\">\
               <a class=\"btn btn-outline-dark\" href=\"#\">View options</a></div></div>\
           </div>\
         </div>",
        name, price
    )
}

fn shop_page() -> String {
    let items = [
        ("Fancy Product", "$40.00 - $80.00"),
        ("Special Item", "$18.00"),
        ("Sale Item", "$25.00"),
        ("Popular Item", "$40.00"),
        ("Sale Item", "$25.00"),
        ("Fancy Product", "$120.00 - $280.00"),
        ("Special Item", "$18.00"),
        ("Popular Item", "$40.00"),
    ];
    let mut body = String::new();
    for (n, p) in items.iter() {
        body.push_str(&product(n, p));
    }
    format!(
        "<!DOCTYPE html><html lang=\"en\"><head><title>Shop Homepage</title></head><body>\
           <nav class=\"navbar\"><a class=\"navbar-brand\" href=\"#\">Shop</a></nav>\
           <section class=\"py-5\"><div class=\"container px-4 mt-5\"><div class=\"row gx-4\">{}</div></div></section>\
           <footer class=\"py-5 bg-dark\"><div class=\"container\"><p class=\"m-0\">Copyright</p></div></footer>\
         </body></html>",
        body
    )
}

fn softmax(base_exp: f64, a: f64, b: f64) -> f64 {
    let m = a.max(b) * base_exp;
    let ea = (base_exp * a - m).exp();
    let eb = (base_exp * b - m).exp();
    ea / (ea + eb)
}

fn criterion_score(c: &Criterion) -> f64 {
    match *c {
        Criterion::Regex => 1.0,
        Criterion::TagName(p) => p as f64 / 100.0,
        Criterion::Attr(None) => 0.0,
        Criterion::Attr(Some(m)) => {
            if m.length == 0 {
                1.0
            } else {
                1.0 - m.distance as f64 / m.length as f64
            }
        }
        Criterion::Depth(d) => f64::clamp(1.0 - (d as f64 * 0.2), 0.0, 1.0),
        Criterion::TextLen(a, b) => {
            let x = softmax(0.2, a as f64, b as f64);
            f64::clamp(2.0 * f64::min(x, 1.0 - x), 0., 1.)
        }
    }
}

fn key(x: f64) -> ScoreKey {
    if x.is_nan() {
        return None;
    }
    let x = if x == 0.0 { 0.0 } else { x };
    let b = x.to_bits();
    Some(if b >> 63 == 0 { b | (1 << 63) } else { !b })
}

fn scorer(c: &Comparison) -> ScoreKey {
    match c {
        Comparison::Rejected => key(0.0),
        Comparison::Scored(v) => {
            let mut total_score = 0f64;
            let mut total_weight = 0f64;
            for (c, w) in v {
                let w = f64::from_bits(*w);
                total_score += criterion_score(c) * w;
                total_weight += w;
            }
            key(total_score / total_weight)
        }
    }
}

fn sel(s: &str) -> FieldSelector {
    FieldSelector::Selector(s.to_string())
}

fn tag(dom: &Dom, el: usize) -> String {
    match dom.kind(el) {
        NodeKind::Element { name, .. } => name.clone(),
        _ => String::new(),
    }
}

fn shop_fields() -> Vec<(String, FieldSelector)> {
    vec![
        ("image".to_string(), sel("div.col:nth-child(1) > div:nth-child(1) > img:nth-child(1)")),
        ("name".to_string(), sel("div.col:nth-child(1) > div:nth-child(1) > div:nth-child(2) > div:nth-child(1) > h5:nth-child(1)")),
        ("description".to_string(), sel("div.col:nth-child(1) > div:nth-child(1) > div:nth-child(2) > div:nth-child(1)")),
        ("price".to_string(), sel("div.col:nth-child(1) > div:nth-child(1) > div:nth-child(2) > div:nth-child(1)")),
    ]
}

#[test]
fn test_create_extract_model() {
    let page = shop_page();
    let fields = vec![
        ("image".to_string(), FieldSpec::Field {
                selector: "div.col:nth-child(1) > div:nth-child(1) > img:nth-child(1)".to_string().into(),
                regex: None
        }),
        ("name".to_string(), FieldSpec::Field {
            selector: "div.col:nth-child(1) > div:nth-child(1) > div:nth-child(2) > div:nth-child(1) > h5:nth-child(1)".to_string().into(),
            regex: None
        }),
        ("description".to_string(), FieldSpec::Field {
                selector: "div.col:nth-child(1) > div:nth-child(1) > div:nth-child(2) > div:nth-child(1)".to_string().into(),
                regex: None
        }),
        ("price".to_string(), FieldSpec::Field {
                selector: "div.col:nth-child(1) > div:nth-child(1) > div:nth-child(2) > div:nth-child(1)".to_string().into(),
                regex: Some(r"\$\d+\.\d+".to_string())
        }),
    ];

    let res = generate_model_str(&page, &fields, &scorer);
    assert!(res.is_ok());

    let model = res.unwrap();
    assert_eq!(model.group_signature.tag_name, "div");
    assert_eq!(model.field_signatures.len(), 4);
    assert_eq!(model.field_signatures[0].0, "image");
    assert!(matches!(&model.field_signatures[0].1, FieldSignature::Signature(s) if s.tag_name == "img" && s.regex.is_none()));
    assert!(matches!(&model.field_signatures[3].1, FieldSignature::Signature(s) if s.regex.as_deref() == Some(r"\$\d+\.\d+")));
    assert!(!model.normalisation.unwrap_text_tags);

    let html = Dom::parse(&page);
    let result = extract_fields(&model, &html, &scorer).unwrap();

    assert_eq!(8, result.data.len());
    assert_eq!(8, result.scores.len());

    for (value, score) in result.data.iter().zip(result.scores.iter()) {
        let MatchValue::Group(fields) = value else { panic!("not a group") };
        let MatchScore::Group(gs) = score else { panic!("not a group score") };
        assert!(gs.score.is_some());
        assert_eq!(fields.len(), 4);
        assert_eq!(gs.fields.len(), 4);
        let names: Vec<&str> = fields.iter().map(|f| f.0.as_str()).collect();
        assert_eq!(names, vec!["image", "name", "description", "price"]);
        let Some(MatchValue::Element(img)) = &fields[0].1 else { panic!("no image") };
        assert_eq!(tag(&html, *img), "img");
        let Some(MatchValue::Element(h5)) = &fields[1].1 else { panic!("no name") };
        assert_eq!(tag(&html, *h5), "h5");
    }
}

#[test]
fn generate_model_in_a_subtree() {
    let page = shop_page();
    let dom = Dom::parse(&page);
    let root = dom.root_element().unwrap();
    let fields = vec![
        ("name".to_string(), sel("h5")),
        ("nested".to_string(), FieldSelector::Submodel(vec![("link".to_string(), sel("a.btn"))])),
    ];
    let model = generate_model(&dom, root, &fields, &scorer).unwrap();
    assert_eq!(model.field_signatures.len(), 2);
    let FieldSignature::Submodel(sub) = &model.field_signatures[1].1 else { panic!("no submodel") };
    assert_eq!(sub.field_signatures.len(), 1);
    assert!(matches!(&sub.field_signatures[0].1, FieldSignature::Signature(s) if s.tag_name == "a"));

    let result = extract_fields(&model, &dom, &scorer).unwrap();
    assert!(!result.data.is_empty());
    let MatchValue::Group(fields) = &result.data[0] else { panic!("not a group") };
    assert_eq!(fields[0].0, "name");
    assert_eq!(fields[1].0, "nested");
    assert!(matches!(&fields[1].1, Some(MatchValue::List(l)) if !l.is_empty()));
}

#[test]
fn generation_errors() {
    let page = shop_page();

    let bad = vec![("x".to_string(), sel("div["))];
    assert!(generate_model_str(&page, &bad, &scorer).is_err());

    let missing = vec![("image".to_string(), sel("img")), ("t".to_string(), sel("table"))];
    assert_eq!(
        generate_model_str(&page, &missing, &scorer).err(),
        Some("Could not find element for field t using selector table".to_string())
    );

    let nested = vec![(
        "sub".to_string(),
        FieldSelector::Submodel(vec![("t".to_string(), sel("table.x"))]),
    )];
    assert_eq!(
        generate_model_str(&page, &nested, &scorer).err(),
        Some("Could not find element for field t using selector table.x".to_string())
    );

    // when every element scores the same, the best match is the root
    // element, which has no element above it
    let flat = |_: &Comparison| key(0.5);
    assert_eq!(
        generate_model_str(&page, &vec![("image".to_string(), sel("img"))], &flat).err(),
        Some("Could not find group for all elements.".to_string())
    );
}

#[test]
fn extraction_without_groups() {
    let page = shop_page();
    let model = generate_model_str(&page, &shop_fields(), &scorer).unwrap();
    let other = Dom::parse("<html><body><p>nothing here</p></body></html>");
    let never = |_: &Comparison| key(0.1);
    assert_eq!(
        extract_fields(&model, &other, &never).err(),
        Some("could not find model group".to_string())
    );
    let nan = |_: &Comparison| None;
    assert!(extract_fields(&model, &other, &nan).is_err());
}

#[test]
fn model_finds_its_own_group() {
    let page = shop_page();
    let model = generate_model_str(&page, &shop_fields(), &scorer).unwrap();
    let dom = Dom::parse(&page);
    let root = dom.root_element().unwrap();
    // the sample's fields lie in the first card
    let card = select_first(&dom, root, "div.col:nth-child(1) > div:nth-child(1)").unwrap().unwrap();
    let groups = find_signature_matches(&dom, root, &[("root", &model.group_signature)], &scorer);
    assert_eq!(groups.len(), 1);
    assert!(groups[0].1.iter().any(|g| g.1 == card));
    assert_eq!(groups[0].1.len(), extract_fields(&model, &dom, &scorer).unwrap().data.len());
}

#[test]
fn extraction_from_text() {
    let page = shop_page();
    let model = generate_model_str(&page, &shop_fields(), &scorer).unwrap();
    let (dom, res) = furas::model::extract_fields_str(&model, &page, &scorer);
    assert_eq!(dom.source(), page);
    assert!(furas::compare::page_has_plain_attributes(&dom));
    let res = res.unwrap();
    assert_eq!(res.data.len(), 8);
    let direct = extract_fields(&model, &dom, &scorer).unwrap();
    assert_eq!(direct.data.len(), res.data.len());
}

#[test]
fn field_regex_rejects_other_text() {
    let page = shop_page();
    let fields = vec![(
        "price".to_string(),
        FieldSpec::Field {
            selector: "div.col:nth-child(1) div.card-body > div".to_string(),
            regex: Some(r"\$\d+\.\d+".to_string()),
        },
    )];
    let model = generate_model_str(&page, &fields, &scorer).unwrap();
    let FieldSignature::Signature(sig) = &model.field_signatures[0].1 else { panic!("no signature") };
    let dom = Dom::parse(&page);
    let root = dom.root_element().unwrap();
    let price = select_first(&dom, root, "div.col:nth-child(1) div.card-body > div").unwrap().unwrap();
    let footer = select_first(&dom, root, "div.col:nth-child(1) div.card-footer > div").unwrap().unwrap();
    assert!(matches!(furas::compare::signature_criteria(sig, &dom, price), Comparison::Scored(_)));
    assert!(matches!(furas::compare::signature_criteria(sig, &dom, footer), Comparison::Rejected));
}

#[test]
fn generation_is_repeatable() {
    let page = shop_page();
    let a = generate_model_str(&page, &shop_fields(), &scorer).unwrap();
    let b = generate_model_str(&page, &shop_fields(), &scorer).unwrap();
    assert_eq!(a.group_signature.tag_name, b.group_signature.tag_name);
    assert_eq!(a.group_signature.depth, b.group_signature.depth);
    assert_eq!(a.group_signature.text_len, b.group_signature.text_len);
    assert_eq!(a.group_signature.index_in_parent, b.group_signature.index_in_parent);
    assert_eq!(a.group_signature.attrs.len(), b.group_signature.attrs.len());
    let names_a: Vec<&str> = a.field_signatures.iter().map(|f| f.0.as_str()).collect();
    let names_b: Vec<&str> = b.field_signatures.iter().map(|f| f.0.as_str()).collect();
    assert_eq!(names_a, names_b);
    for (x, y) in a.field_signatures.iter().zip(b.field_signatures.iter()) {
        let (FieldSignature::Signature(s), FieldSignature::Signature(t)) = (&x.1, &y.1) else { panic!("not signatures") };
        assert_eq!(s.tag_name, t.tag_name);
        assert_eq!(s.depth, t.depth);
        assert_eq!(s.text_len, t.text_len);
    }
    let missing = vec![("t".to_string(), sel("table"))];
    assert_eq!(
        generate_model_str(&page, &missing, &scorer).err(),
        generate_model_str(&page, &missing, &scorer).err()
    );
}
