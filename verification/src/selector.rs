//! CSS selectors, matched by `scraper`.
use scraper::{ElementRef, Html, Selector};
use vstd::prelude::*;
use crate::dom::{Dom, DomModel};

verus! {

/// What `scraper` answers when the CSS selector `selector` is matched
/// against each node of the document parsed from `html`, in document
/// order, with node `scope` as the scope element: one flag per node, or the
/// error message where the selector does not parse.
pub uninterp spec fn selector_matches(html: Seq<char>, selector: Seq<char>, scope: int) -> Result<
    Seq<bool>,
    Seq<char>,
>;

/// Parses `html` with `scraper::Html::parse_document` and `selector` with
/// `scraper::Selector::parse`; on success, tells for each node of the
/// document, in the order of a depth-first traversal, whether it is an
/// element that the selector matches (`Selector::matches_with_scope`, with
/// the node at position `scope` as scope), and on failure gives the
/// message of the selector error.  The answer is a function of the three
/// arguments.
#[verifier::external_body]
fn select_flags(html: &str, selector: &str, scope: usize) -> (r: Result<Vec<bool>, String>)
    ensures
        match r {
            Ok(flags) => selector_matches(html@, selector@, scope as int) == Ok::<
                Seq<bool>,
                Seq<char>,
            >(flags@),
            Err(msg) => selector_matches(html@, selector@, scope as int) == Err::<
                Seq<bool>,
                Seq<char>,
            >(msg@),
        },
{
    let doc = Html::parse_document(html);
    let scope = doc.tree.root().descendants().nth(scope).and_then(ElementRef::wrap);
    match Selector::parse(selector) {
        Ok(sel) => Ok(doc.tree.root().descendants().map(|node| ElementRef::wrap(node)
            .is_some_and(|el| sel.matches_with_scope(&el, scope))).collect()),
        Err(err) => Err(err.to_string()),
    }
}

/// The first element in `[lo, hi)` that `flags` marks.
pub open spec fn first_match(t: DomModel, flags: Seq<bool>, lo: int, hi: int) -> Option<int>
    decreases hi - lo,
{
    if hi <= lo {
        None
    } else if lo < flags.len() && flags[lo] && t.is_element(lo) {
        Some(lo)
    } else {
        first_match(t, flags, lo + 1, hi)
    }
}

/// What `select_first` answers.
pub open spec fn select_first_spec(dom: &Dom, root: int, selector: Seq<char>) -> Result<
    Option<int>,
    Seq<char>,
> {
    match selector_matches(dom.source_text(), selector, root) {
        Ok(flags) => Ok(first_match(dom@, flags, root + 1, dom@.ends[root])),
        Err(msg) => Err(msg),
    }
}

/// The first element below `root`, in document order, that the CSS
/// selector matches; an error where the selector does not parse.
pub fn select_first(dom: &Dom, root: usize, selector: &str) -> (r: Result<Option<usize>, String>)
    requires
        dom@.wf(),
        root < dom@.n(),
    ensures
        match (r, select_first_spec(dom, root as int, selector@)) {
            (Ok(Some(el)), Ok(Some(x))) => el == x,
            (Ok(None), Ok(None)) => true,
            (Err(m), Err(x)) => m@ == x,
            _ => false,
        },
        r matches Ok(Some(el)) ==> el < dom@.n() && dom@.is_element(el as int),
{
    match select_flags(dom.source(), selector, root) {
        Err(msg) => Err(msg),
        Ok(flags) => {
            let end = dom.end(root);
            let mut j = root + 1;
            while j < end
                invariant
                    dom@.wf(),
                    root < dom@.n(),
                    end == dom@.ends[root as int],
                    end <= dom@.n(),
                    root + 1 <= j <= end,
                    selector_matches(dom.source_text(), selector@, root as int) == Ok::<
                        Seq<bool>,
                        Seq<char>,
                    >(flags@),
                    first_match(dom@, flags@, root + 1, end as int) == first_match(
                        dom@,
                        flags@,
                        j as int,
                        end as int,
                    ),
                decreases end - j,
            {
                if j < flags.len() && flags[j] && dom.is_element(j) {
                    assert(first_match(dom@, flags@, j as int, end as int) == Some(j as int));
                    return Ok(Some(j));
                }
                j = j + 1;
            }
            Ok(None)
        },
    }
}

} // verus!
