use std::collections::HashSet;

use furas::utils::intersections;

#[test]
fn test_intersections() {
    let a: HashSet<_> = [1, 2, 3, 4].into();
    let b: HashSet<_> = [2, 3, 4, 5].into();
    let c: HashSet<_> = [3, 4, 5, 6].into();
    assert_eq!(intersections::<i32>(&[]), HashSet::new());
    assert_eq!(intersections(&[&[1].into()]), [1].into());
    assert_eq!(intersections(&[&a, &b, &c]), [3, 4].into());
    assert_eq!(intersections(&[&[1, 2].into(), &[3, 4].into()]), HashSet::new());
}

use furas::dom::{Dom, NodeKind};
use furas::selector::select_first;
use furas::utils::{compare_html_tag_name, index_in_parent, lca};

const PAGE: &str = "<!DOCTYPE html><html lang=\"en\"><head>\
    <meta charset=\"utf-8\"><meta name=\"viewport\" content=\"width=device-width\">\
    <meta name=\"description\" content=\"\"><meta name=\"author\" content=\"\">\
    <title>Shop Homepage</title><link rel=\"icon\" href=\"favicon.ico\">\
    <link href=\"icons.css\" rel=\"stylesheet\"><link href=\"styles.css\" rel=\"stylesheet\">\
    </head><body><section class=\"py-5\"><div class=\"container\"><div class=\"row\">\
    <div class=\"col mb-5\"><div class=\"card h-100\"><img src=\"a.jpg\">\
    <div class=\"card-body\"><div class=\"text-center\"><h5>Fancy Product</h5>$40.00</div></div>\
    <div class=\"card-footer\"><div class=\"text-center\"><a href=\"#\">View options</a></div></div>\
    </div></div>\
    <div class=\"col mb-5\"><div class=\"card h-100\"><img src=\"b.jpg\"></div></div>\
    </div></div></section>\
    <footer class=\"py-5 bg-dark\"><p>Copyright</p></footer></body></html>";

fn select(dom: &Dom, selector: &str) -> usize {
    let root = dom.root_element().unwrap();
    select_first(dom, root, selector).unwrap().unwrap()
}

#[test]
fn lca_test() {
    let dom = Dom::parse(PAGE);

    let el1 = select(&dom, "div.col:nth-child(1) > div:nth-child(1) > div:nth-child(2) > div:nth-child(1) > h5:nth-child(1)");
    let el2 = select(&dom, "div.col:nth-child(1) > div:nth-child(1) > img:nth-child(1)");
    let el3 = select(&dom, "div.col:nth-child(1) > div:nth-child(1) > div:nth-child(3) > div:nth-child(1) > a:nth-child(1)");

    let parent = select(&dom, "div.col:nth-child(1) > div:nth-child(1)");
    let parent_of_parent = dom.parent(parent);

    assert_eq!(lca(&dom, &[el1, el2]), Some(parent));
    assert_eq!(lca(&dom, &[el1, el2, el3]), Some(parent));
    assert_ne!(lca(&dom, &[el1, el2, el3]), Some(parent_of_parent));

    let el4 = select(&dom, "head > link:nth-child(8)");
    let el5 = select(&dom, "footer.py-5");

    assert_eq!(lca(&dom, &[el4, el5]).unwrap(), dom.root_element().unwrap())
}

#[test]
fn lca_edge_cases() {
    let dom = Dom::parse(PAGE);
    let root = dom.root_element().unwrap();
    let h5 = select(&dom, "h5");
    let img = select(&dom, "img");
    assert_eq!(lca(&dom, &[]), None);
    // the root element has no element above it
    assert_eq!(lca(&dom, &[root]), None);
    assert_eq!(lca(&dom, &[h5, root]), None);
    // a single node: its parent element
    assert_eq!(lca(&dom, &[h5]), Some(dom.parent(h5)));
    // order and repetitions do not matter
    assert_eq!(lca(&dom, &[img, h5, img]), lca(&dom, &[h5, img]));
    // an element and one of its ancestors: the ancestor's parent
    let card = dom.parent(img);
    assert_eq!(lca(&dom, &[card, h5]), Some(dom.parent(card)));
}

#[test]
fn tag_name_similarity() {
    assert_eq!(compare_html_tag_name("div", "div"), 100);
    assert_eq!(compare_html_tag_name("p", "span"), 70);
    assert_eq!(compare_html_tag_name("h1", "h6"), 70);
    assert_eq!(compare_html_tag_name("section", "div"), 70);
    assert_eq!(compare_html_tag_name("div", "p"), 0);
    assert_eq!(compare_html_tag_name("a", "img"), 0);
    assert_eq!(compare_html_tag_name("h7", "h1"), 0);
    assert_eq!(compare_html_tag_name("", ""), 100);
}

#[test]
fn index_among_element_siblings() {
    let dom = Dom::parse("<html><body>text<p>a</p> <!-- c --><span>b</span><i></i></body></html>");
    let root = dom.root_element().unwrap();
    let p = select(&dom, "p");
    let span = select(&dom, "span");
    let i = select(&dom, "i");
    assert_eq!(index_in_parent(&dom, p), 0);
    assert_eq!(index_in_parent(&dom, span), 1);
    assert_eq!(index_in_parent(&dom, i), 2);
    // the root element's parent is the document
    assert_eq!(index_in_parent(&dom, root), 0);
    assert_eq!(index_in_parent(&dom, 0), 0);
}

#[test]
fn parsed_document_shape() {
    let dom = Dom::parse("<p>hi</p>");
    // document, html, head, body, p, text
    assert_eq!(dom.len(), 6);
    assert!(matches!(dom.kind(0), NodeKind::Other));
    let root = dom.root_element().unwrap();
    assert_eq!(root, 1);
    assert!(matches!(dom.kind(root), NodeKind::Element { name, .. } if name == "html"));
    assert_eq!(dom.end(0), 6);
    assert_eq!(dom.end(root), 6);
    assert!(matches!(dom.kind(5), NodeKind::Text { text } if text == "hi"));
    assert_eq!(dom.parent(5), 4);
    assert_eq!(dom.source(), "<p>hi</p>");
}

#[test]
fn selectors() {
    let dom = Dom::parse(PAGE);
    let root = dom.root_element().unwrap();
    assert!(select_first(&dom, root, "div[").is_err());
    assert_eq!(select_first(&dom, root, "table"), Ok(None));
    // the element the search starts from is not a candidate
    assert_eq!(select_first(&dom, root, "html"), Ok(None));
    let h5 = select(&dom, "h5");
    assert!(matches!(dom.kind(h5), NodeKind::Element { name, .. } if name == "h5"));
    // the first in document order
    let first = select(&dom, "img");
    let second = select(&dom, "div.col:nth-child(2) img");
    assert!(first < second);
    // `:scope` refers to the element the search starts from
    let card = dom.parent(first);
    assert_eq!(select_first(&dom, card, ":scope > img"), Ok(Some(first)));
}
