//! Signatures of elements: what an element looks like, reduced to a few
//! features that can be compared with those of other elements.
use vstd::prelude::*;
use crate::dom::{Attribute, Dom, DomModel, NodeKind};
use crate::text::{
    is_token, join_with_space, lemma_split_join, lemma_split_ws_tokens, chars_to_string, sort_tokens, sorted, split_whitespace_chars, split_ws, str_chars,
    string_views, views,
};
use crate::utils::{index_in_parent, index_in_parent_spec};
use vstd::utf8::encode_utf8;

verus! {

/// The value of an attribute in a signature.
pub enum AttrValue {
    /// A single value, compared as a whole.
    Signle(String),
    /// A list of tokens, each compared on its own.
    List(Vec<String>),
}

/// The features of an element by which similar elements are found.
pub struct Signature {
    /// Local name of the element.
    pub tag_name: String,
    /// Attributes by name, each with its normalised value.
    pub attrs: Vec<(String, AttrValue)>,
    /// Number of element and text levels above the element, the document
    /// node not counted.
    pub depth: u32,
    /// Whether the element has any child node.
    pub has_children: bool,
    /// Position among the element children of its parent.
    pub index_in_parent: u32,
    /// Number of bytes of text in the element.
    pub text_len: u32,
    /// A pattern that the text of a matching element must contain.
    pub regex: Option<String>,
    /// Weight of each criterion of comparison, as the bits of an `f64`.
    pub weights: Vec<(String, u64)>,
    /// Free-form annotations.
    pub meta: Vec<(String, String)>,
}

/// The value of an attribute in a signature, as a mathematical value.
pub enum AttrValueView {
    Signle(Seq<char>),
    List(Seq<Seq<char>>),
}

/// A signature as a mathematical value.
pub struct SignatureView {
    pub tag_name: Seq<char>,
    pub attrs: Seq<(Seq<char>, AttrValueView)>,
    pub depth: u32,
    pub has_children: bool,
    pub index_in_parent: u32,
    pub text_len: u32,
    pub regex: Option<Seq<char>>,
    pub weights: Seq<(Seq<char>, u64)>,
    pub meta: Seq<(Seq<char>, Seq<char>)>,
}

impl View for AttrValue {
    type V = AttrValueView;

    open spec fn view(&self) -> AttrValueView {
        match self {
            AttrValue::Signle(s) => AttrValueView::Signle(s@),
            AttrValue::List(v) => AttrValueView::List(string_views(v@)),
        }
    }
}

impl View for Signature {
    type V = SignatureView;

    open spec fn view(&self) -> SignatureView {
        SignatureView {
            tag_name: self.tag_name@,
            attrs: self.attrs@.map_values(|e: (String, AttrValue)| (e.0@, e.1@)),
            depth: self.depth,
            has_children: self.has_children,
            index_in_parent: self.index_in_parent,
            text_len: self.text_len,
            regex: match self.regex {
                Some(r) => Some(r@),
                None => None,
            },
            weights: self.weights@.map_values(|e: (String, u64)| (e.0@, e.1)),
            meta: self.meta@.map_values(|e: (String, String)| (e.0@, e.1@)),
        }
    }
}

/// No two entries share a name.
pub open spec fn names_unique<V>(s: Seq<(Seq<char>, V)>) -> bool {
    forall|i: int, j: int| 0 <= i < j < s.len() ==> (#[trigger] s[i]).0 != (#[trigger] s[j]).0
}

/// A signature holds at most one entry for each attribute, each weight and
/// each annotation, as the maps it stands for do.
pub open spec fn signature_wf(s: SignatureView) -> bool {
    &&& names_unique(s.attrs)
    &&& names_unique(s.weights)
    &&& names_unique(s.meta)
}

/// `v` is the normalised form of the attribute value `s`: its
/// whitespace-separated tokens in lexicographic order.
pub open spec fn is_normalised(v: Seq<Seq<char>>, s: Seq<char>) -> bool {
    &&& sorted(v)
    &&& v.to_multiset() == split_ws(s).to_multiset()
}

/// The normalised form of an attribute value (there is exactly one, see
/// `lemma_normalised_unique`).
pub open spec fn normalised(s: Seq<char>) -> Seq<Seq<char>> {
    choose|v: Seq<Seq<char>>| is_normalised(v, s)
}

/// An attribute value has one normalised form.
pub proof fn lemma_normalised_unique(v: Seq<Seq<char>>, w: Seq<Seq<char>>, s: Seq<char>)
    requires
        is_normalised(v, s),
        is_normalised(w, s),
    ensures
        v == w,
{
    crate::text::lemma_sorted_unique(v, w);
}

/// Normalising is idempotent: the normalised tokens of a value, joined
/// with spaces, normalise to themselves.
pub proof fn lemma_normalise_idempotent(v: Seq<Seq<char>>, s: Seq<char>)
    requires
        is_normalised(v, s),
    ensures
        is_normalised(v, join_with_space(v)),
        normalised(join_with_space(v)) == v,
{
    broadcast use vstd::seq_lib::group_to_multiset_ensures;
    lemma_split_ws_tokens(s);
    assert forall|i: int| 0 <= i < v.len() implies is_token(#[trigger] v[i]) by {
        assert(v.to_multiset().count(v[i]) > 0);
        assert(split_ws(s).contains(v[i]));
        let j = choose|j: int| 0 <= j < split_ws(s).len() && split_ws(s)[j] == v[i];
        assert(is_token(split_ws(s)[j]));
    }
    lemma_split_join(v);
    let j = join_with_space(v);
    assert(is_normalised(v, j));
    lemma_normalised_unique(normalised(j), v, j);
}

/// Splits an attribute value at whitespace and sorts the tokens
/// lexicographically.
pub fn normalise_attr_value(attr_val: &str) -> (r: Vec<String>)
    ensures
        is_normalised(string_views(r@), attr_val@),
        string_views(r@) == normalised(attr_val@),
{
    let chars = str_chars(attr_val);
    let tokens = split_whitespace_chars(&chars);
    let tokens = sort_tokens(tokens);
    let mut r: Vec<String> = Vec::new();
    for i in 0..tokens.len()
        invariant
            r@.len() == i,
            i <= tokens@.len(),
            forall|j: int| 0 <= j < i ==> (#[trigger] r@[j])@ == tokens@[j]@,
    {
        r.push(chars_to_string(&tokens[i]));
    }
    assert(string_views(r@) =~= views(tokens@));
    proof {
        lemma_normalised_unique(string_views(r@), normalised(attr_val@), attr_val@);
    }
    r
}

/// The attributes of an element that `collect` into a map keeps: for each
/// name, the last attribute with that name.
pub open spec fn kept_attrs(attrs: Seq<Attribute>) -> Seq<Attribute>
    decreases attrs.len(),
{
    if attrs.len() == 0 {
        seq![]
    } else if exists|j: int| 0 < j < attrs.len() && (#[trigger] attrs[j]).name@ == attrs[0].name@ {
        kept_attrs(attrs.drop_first())
    } else {
        seq![attrs[0]] + kept_attrs(attrs.drop_first())
    }
}

/// The attributes kept have distinct names, each the name of an attribute.
proof fn lemma_kept_attrs_distinct(attrs: Seq<Attribute>)
    ensures
        forall|i: int|
            0 <= i < kept_attrs(attrs).len() ==> exists|j: int|
                0 <= j < attrs.len() && attrs[j].name@ == (#[trigger] kept_attrs(attrs)[i]).name@,
        forall|i: int, j: int|
            0 <= i < j < kept_attrs(attrs).len() ==> (#[trigger] kept_attrs(attrs)[i]).name@ != (
            #[trigger] kept_attrs(attrs)[j]).name@,
    decreases attrs.len(),
{
    if attrs.len() > 0 {
        let rest = attrs.drop_first();
        lemma_kept_attrs_distinct(rest);
        let kr = kept_attrs(rest);
        let k = kept_attrs(attrs);
        assert forall|i: int| 0 <= i < kr.len() implies exists|j: int|
            0 <= j < attrs.len() && attrs[j].name@ == (#[trigger] kr[i]).name@ by {
            let j = choose|j: int| 0 <= j < rest.len() && rest[j].name@ == kr[i].name@;
            assert(attrs[j + 1] == rest[j]);
        }
        if exists|j: int| 0 < j < attrs.len() && (#[trigger] attrs[j]).name@ == attrs[0].name@ {
            assert(k == kr);
        } else {
            assert(k == seq![attrs[0]] + kr);
            assert forall|i: int| 0 <= i < k.len() implies exists|j: int|
                0 <= j < attrs.len() && attrs[j].name@ == (#[trigger] k[i]).name@ by {
                if i > 0 {
                    assert(k[i] == kr[i - 1]);
                } else {
                    assert(attrs[0].name@ == k[0].name@);
                }
            }
            assert forall|i: int, j: int| 0 <= i < j < k.len() implies (#[trigger] k[i]).name@ != (
            #[trigger] k[j]).name@ by {
                assert(k[j] == kr[j - 1]);
                if i > 0 {
                    assert(k[i] == kr[i - 1]);
                } else {
                    let x = choose|x: int| 0 <= x < rest.len() && rest[x].name@ == kr[j - 1].name@;
                    assert(attrs[x + 1] == rest[x]);
                }
            }
        }
    }
}

/// Number of bytes of the UTF-8 encoding of `s`.
pub open spec fn utf8_len(s: Seq<char>) -> nat {
    encode_utf8(s).len()
}

/// `(a + b) mod 2^32`.
fn add_mod32(a: u32, b: u32) -> (r: u32)
    ensures
        r == (a + b) % 0x1_0000_0000,
{
    (((a as u64) + (b as u64)) % 0x1_0000_0000u64) as u32
}

/// Number of bytes of the UTF-8 encoding of `s`, modulo 2^32.
fn utf8_len_mod32(s: &str) -> (r: u32)
    ensures
        r == utf8_len(s@) % 0x1_0000_0000,
{
    let chars = str_chars(s);
    let mut acc: u32 = 0;
    let mut i: usize = 0;
    let ghost mut exact: nat = 0;
    assert(chars@.skip(0) =~= chars@);
    while i < chars.len()
        invariant
            i <= chars@.len(),
            chars@ == s@,
            utf8_len(s@) == exact + utf8_len(chars@.skip(i as int)),
            acc == exact % 0x1_0000_0000,
        decreases chars.len() - i,
    {
        let v = chars[i] as u32;
        let w: u32 = if v <= 0x7F {
            1
        } else if 0x80 <= v && v <= 0x7FF {
            2
        } else if 0x800 <= v && v <= 0xFFFF && !(0xD800 <= v && v <= 0xDFFF) {
            3
        } else {
            4
        };
        proof {
            let rest = chars@.skip(i as int);
            assert(rest.drop_first() =~= chars@.skip(i + 1));
            assert(rest[0] == chars@[i as int]);
            assert(encode_utf8(rest) == vstd::utf8::encode_scalar(rest[0] as u32) + encode_utf8(
                rest.drop_first(),
            ));
            assert(vstd::utf8::encode_scalar(rest[0] as u32).len() == w);
            vstd::arithmetic::div_mod::lemma_add_mod_noop(exact as int, w as int, 0x1_0000_0000);
            vstd::arithmetic::div_mod::lemma_small_mod(w as nat, 0x1_0000_0000);
            exact = exact + (w as nat);
        }
        acc = add_mod32(acc, w);
        i = i + 1;
    }
    assert(chars@.skip(i as int) =~= seq![]);
    assert(encode_utf8(chars@.skip(i as int)) =~= seq![]);
    acc
}

/// Number of bytes of text held by the nodes in `[lo, hi)`.
pub open spec fn text_bytes_between(t: DomModel, lo: int, hi: int) -> nat
    decreases hi - lo,
{
    if hi <= lo {
        0
    } else {
        text_bytes_between(t, lo, hi - 1) + match t.kinds[hi - 1] {
            NodeKind::Text { text } => utf8_len(text@),
            _ => 0nat,
        }
    }
}


/// Number of bytes of text in the subtree of `el`, modulo 2^32.
fn element_text_len(dom: &Dom, el: usize) -> (r: u32)
    requires
        dom@.wf(),
        el < dom@.n(),
    ensures
        r == text_bytes_between(dom@, el as int, dom@.ends[el as int]) % 0x1_0000_0000,
{
    let end = dom.end(el);
    let mut acc: u32 = 0;
    let mut k = el;
    while k < end
        invariant
            dom@.wf(),
            el < dom@.n(),
            end == dom@.ends[el as int],
            el <= k <= end,
            end <= dom@.n(),
            acc == text_bytes_between(dom@, el as int, k as int) % 0x1_0000_0000,
        decreases end - k,
    {
        match dom.kind(k) {
            NodeKind::Text { text } => {
                let w = utf8_len_mod32(text.as_str());
                proof {
                    vstd::arithmetic::div_mod::lemma_add_mod_noop(
                        text_bytes_between(dom@, el as int, k as int) as int,
                        utf8_len(text@) as int,
                        0x1_0000_0000,
                    );
                }
                acc = add_mod32(acc, w);
            },
            _ => {},
        }
        k = k + 1;
    }
    acc
}


/// The attributes kept when an element's attributes are collected by name.
fn keep_attrs(attrs: &Vec<Attribute>) -> (r: Vec<&Attribute>)
    ensures
        r@.len() == kept_attrs(attrs@).len(),
        forall|i: int| 0 <= i < r@.len() ==> *(#[trigger] r@[i]) == kept_attrs(attrs@)[i],
{
    let mut r: Vec<&Attribute> = Vec::new();
    let mut i: usize = 0;
    assert(attrs@.skip(0) =~= attrs@);
    while i < attrs.len()
        invariant
            i <= attrs@.len(),
            r@.map_values(|a: &Attribute| *a) + kept_attrs(attrs@.skip(i as int)) == kept_attrs(
                attrs@,
            ),
        decreases attrs.len() - i,
    {
        let name = str_chars(attrs[i].name.as_str());
        let mut later = false;
        let mut j: usize = i + 1;
        while j < attrs.len()
            invariant
                i < j <= attrs@.len(),
                name@ == attrs@[i as int].name@,
                later <==> exists|x: int| i < x < j && (#[trigger] attrs@[x]).name@ == name@,
            decreases attrs.len() - j,
        {
            let other = str_chars(attrs[j].name.as_str());
            if crate::utils::chars_eq(name.as_slice(), other.as_slice()) {
                later = true;
            }
            j = j + 1;
        }
        let ghost before = r@.map_values(|a: &Attribute| *a);
        let ghost rest = attrs@.skip(i as int);
        proof {
            assert(rest.drop_first() =~= attrs@.skip(i + 1));
            assert(rest[0] == attrs@[i as int]);
            if later {
                let x = choose|x: int| i < x < attrs@.len() && (#[trigger] attrs@[x]).name@ == name@;
                assert(rest[x - i] == attrs@[x]);
            } else {
                assert forall|y: int| 0 < y < rest.len() implies (#[trigger] rest[y]).name@
                    != rest[0].name@ by {
                    assert(rest[y] == attrs@[i + y]);
                }
            }
        }
        if !later {
            r.push(&attrs[i]);
            assert(r@.map_values(|a: &Attribute| *a) =~= before.push(attrs@[i as int]));
            assert(before + kept_attrs(rest) =~= r@.map_values(|a: &Attribute| *a) + kept_attrs(
                attrs@.skip(i + 1),
            ));
        }
        i = i + 1;
    }
    assert(attrs@.skip(i as int) =~= seq![]);
    assert(r@.map_values(|a: &Attribute| *a) =~= kept_attrs(attrs@));
    r
}

/// The entry of a signature for an attribute.
pub open spec fn attr_entry(a: Attribute) -> (Seq<char>, AttrValueView) {
    (a.name@, AttrValueView::List(normalised(a.value@)))
}

/// The signature that `compute_signature` builds for element `el`.
pub open spec fn signature_view_of(t: DomModel, el: int) -> SignatureView {
    let anc = t.depth(el) as u32;
    SignatureView {
        tag_name: t.kinds[el]->name@,
        attrs: kept_attrs(t.kinds[el]->attrs@).map_values(|a: Attribute| attr_entry(a)),
        depth: if anc == 0 {
            0
        } else {
            (anc - 1) as u32
        },
        has_children: exists|k: int| 0 < k < t.n() && #[trigger] t.parents[k] == el,
        index_in_parent: index_in_parent_spec(t, el) as u32,
        text_len: (text_bytes_between(t, el, t.ends[el]) % 0x1_0000_0000) as u32,
        regex: None,
        weights: seq![],
        meta: seq![],
    }
}

/// Computes the signature of an element.
pub fn compute_signature(dom: &Dom, el: usize) -> (r: Signature)
    requires
        dom@.wf(),
        el < dom@.n(),
        dom@.is_element(el as int),
    ensures
        r@ == signature_view_of(dom@, el as int),
        signature_wf(r@),
{
    let (name, attrs) = match dom.kind(el) {
        NodeKind::Element { name, attrs } => (name, attrs),
        _ => vstd::pervasive::unreached(),
    };
    let kept = keep_attrs(attrs);
    let mut sig_attrs: Vec<(String, AttrValue)> = Vec::new();
    for i in 0..kept.len()
        invariant
            sig_attrs@.len() == i,
            i <= kept@.len(),
            forall|j: int| 0 <= j < i ==> (#[trigger] sig_attrs@[j]).0@ == kept@[j].name@ && sig_attrs@[j].1@
                == AttrValueView::List(normalised(kept@[j].value@)),
    {
        let a: &Attribute = kept[i];
        sig_attrs.push((a.name.clone(), AttrValue::List(normalise_attr_value(a.value.as_str()))));
    }
    // number of ancestors
    let mut anc: usize = 0;
    let mut cur = el;
    while cur != 0
        invariant
            dom@.wf(),
            cur < dom@.n(),
            el < dom@.n(),
            anc + dom@.depth(cur as int) == dom@.depth(el as int),
            anc <= el - cur,
        decreases cur,
    {
        cur = dom.parent(cur);
        anc = anc + 1;
    }
    #[verifier::truncate]
    let anc32 = anc as u32;
    let depth: u32 = if anc32 == 0 {
        0
    } else {
        anc32 - 1
    };
    let end = dom.end(el);
    let has_children = end > el + 1;
    proof {
        let t = dom@;
        if has_children {
            let k = el + 1;
            assert(t.in_subtree(el as int, k as int));
            assert(t.parents[k as int] <= el) by {
                if t.parents[k as int] != el {
                    lemma_subtree_after_parent(t, el as int, k as int);
                }
            }
            assert(t.parents[k as int] == el) by {
                if t.parents[k as int] != el {
                    crate::dom::lemma_subtree_after(t, el as int, t.parents[k as int]);
                }
            }
        } else {
            assert forall|k: int| 0 < k < t.n() implies #[trigger] t.parents[k] != el by {
                if t.parents[k] == el {
                    assert(t.in_subtree(el as int, el as int));
                    assert(t.in_subtree(el as int, k));
                }
            }
        }
    }
    #[verifier::truncate]
    let index = index_in_parent(dom, el) as u32;
    let text_len = element_text_len(dom, el);
    let r = Signature {
        tag_name: name.clone(),
        attrs: sig_attrs,
        depth,
        has_children,
        index_in_parent: index,
        text_len,
        regex: None,
        weights: Vec::new(),
        meta: Vec::new(),
    };
    proof {
        let kept_spec = kept_attrs(dom@.kinds[el as int]->attrs@);
        assert(r@.attrs =~= kept_spec.map_values(|a: Attribute| attr_entry(a)));
        lemma_kept_attrs_distinct(dom@.kinds[el as int]->attrs@);
        assert forall|i: int, j: int| 0 <= i < j < r@.attrs.len() implies (#[trigger] r@.attrs[i]).0
            != (#[trigger] r@.attrs[j]).0 by {
            assert(r@.attrs[i] == attr_entry(kept_spec[i]));
            assert(r@.attrs[j] == attr_entry(kept_spec[j]));
        }
        assert(r@.weights =~= seq![]);
        assert(r@.meta =~= seq![]);
    }
    r
}

/// An element has children exactly when its subtree holds more than the
/// element itself: some node of any kind (element, text, comment) has it
/// as its parent.
pub proof fn lemma_has_children(t: DomModel, el: int)
    requires
        t.wf(),
        0 <= el < t.n(),
    ensures
        signature_view_of(t, el).has_children == (t.ends[el] > el + 1),
        t.ends[el] > el + 1 ==> t.parents[el + 1] == el,
{
    if t.ends[el] > el + 1 {
        let k = el + 1;
        assert(t.in_subtree(el, k));
        assert(t.parents[k] <= el) by {
            if t.parents[k] != el {
                lemma_subtree_after_parent(t, el, k);
            }
        }
        assert(t.parents[k] == el) by {
            if t.parents[k] != el {
                crate::dom::lemma_subtree_after(t, el, t.parents[k]);
            }
        }
        assert(0 < k < t.n() && t.parents[k] == el);
    } else {
        assert forall|k: int| 0 < k < t.n() implies #[trigger] t.parents[k] != el by {
            if t.parents[k] == el {
                assert(t.in_subtree(el, el));
                assert(t.in_subtree(el, k));
            }
        }
    }
}

/// A node in the subtree of `a` other than `a` has its parent in that subtree too.
proof fn lemma_subtree_after_parent(t: DomModel, a: int, k: int)
    requires
        t.in_subtree(a, k),
        a != k,
    ensures
        t.in_subtree(a, t.parents[k]),
{
}

} // verus!
