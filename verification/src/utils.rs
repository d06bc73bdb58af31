//! Helpers over tag names, node positions and sets.
use std::collections::HashSet;
use std::hash::Hash;
use vstd::prelude::*;
use vstd::std_specs::hash::obeys_key_model;
use vstd::std_specs::iter::IteratorSpec;
use crate::dom::{Dom, DomModel, lemma_subtree_after, lemma_subtree_depth, lemma_subtree_nested};
use crate::text::str_chars;

verus! {

broadcast use {vstd::std_specs::hash::group_hash_axioms, vstd::seq_lib::group_seq_properties};

/// `x` belongs to every set of `sets`.
pub open spec fn in_every<T>(sets: Seq<&HashSet<T>>, x: T) -> bool {
    forall|i: int| 0 <= i < sets.len() ==> (#[trigger] sets[i])@.contains(x)
}

/// Intersects several sets: the elements that belong to all of them.
/// Intersecting no set at all gives the empty set.
pub fn intersections<T: Copy + Eq + Hash>(sets: &[&HashSet<T>]) -> (r: HashSet<T>)
    requires
        obeys_key_model::<T>(),
    ensures
        forall|x: T| #[trigger]
            r@.contains(x) <==> (sets@.len() > 0 && in_every(sets@, x)),
{
    let mut r: HashSet<T> = HashSet::new();
    if sets.len() == 0 {
        return r;
    }
    let first: &HashSet<T> = sets[0];
    let ghost keys = vstd::std_specs::hash::spec_hash_keys_iter(first).remaining();
    for x in it: first.iter()
        invariant
            sets@.len() > 0,
            first == sets@[0],
            obeys_key_model::<T>(),
            it.seq() == keys,
            keys.unref().to_set() == first@,
            forall|y: T| #[trigger]
                r@.contains(y) <==> (it.seq().take(it.index() as int).unref().contains(y)
                    && in_every(sets@, y)),
    {
        let ghost idx = it.index() as int;
        let v: T = *x;
        let mut all = true;
        let mut k: usize = 1;
        while k < sets.len()
            invariant
                1 <= k <= sets.len(),
                obeys_key_model::<T>(),
                all <==> (forall|i: int| 0 <= i < k ==> (#[trigger] sets@[i])@.contains(v)),
                first == sets@[0],
                first@.contains(v),
            decreases sets.len() - k,
        {
            if !sets[k].contains(&v) {
                all = false;
            }
            k = k + 1;
        }
        let ghost old_r = r@;
        assert(all <==> in_every(sets@, v));
        r.insert(v);
        if !all {
            r.remove(&v);
            assert(!old_r.contains(v));
            assert(r@ =~= old_r);
        } else {
            assert(r@ =~= old_r.insert(v));
        }
        assert(*keys[idx] == v);
        assert(it.seq().take(idx + 1).unref() =~= it.seq().take(idx).unref().push(v));
    }
    assert(keys.take(keys.len() as int) =~= keys);
    r
}


/// Some set of `sets` has the elements of `s`.
pub open spec fn holds_set<T>(sets: Seq<&HashSet<T>>, s: Set<T>) -> bool {
    exists|j: int| 0 <= j < sets.len() && (#[trigger] sets[j])@ == s
}

/// What `intersections` gives depends only on which sets are given: two
/// lists that hold the same sets, in any order and with any repetitions,
/// have the same elements common to all their sets.
pub proof fn lemma_intersections_order<T>(a: Seq<&HashSet<T>>, b: Seq<&HashSet<T>>, x: T)
    requires
        forall|i: int| 0 <= i < a.len() ==> holds_set(b, (#[trigger] a[i])@),
        forall|j: int| 0 <= j < b.len() ==> holds_set(a, (#[trigger] b[j])@),
    ensures
        (a.len() > 0 && in_every(a, x)) == (b.len() > 0 && in_every(b, x)),
{
    if a.len() > 0 {
        assert(holds_set(b, a[0]@));
    }
    if b.len() > 0 {
        assert(holds_set(a, b[0]@));
    }
    if in_every(a, x) {
        assert forall|j: int| 0 <= j < b.len() implies (#[trigger] b[j])@.contains(x) by {
            assert(holds_set(a, b[j]@));
            let i = choose|i: int| 0 <= i < a.len() && (#[trigger] a[i])@ == b[j]@;
        }
    }
    if in_every(b, x) {
        assert forall|i: int| 0 <= i < a.len() implies (#[trigger] a[i])@.contains(x) by {
            assert(holds_set(b, a[i]@));
            let j = choose|j: int| 0 <= j < b.len() && (#[trigger] b[j])@ == a[i]@;
        }
    }
}

/// Tags of elements that hold text.
pub open spec fn is_text_tag(t: Seq<char>) -> bool {
    ||| t == seq!['p']
    ||| t == seq!['s', 'p', 'a', 'n']
    ||| t == seq!['h', '1']
    ||| t == seq!['h', '2']
    ||| t == seq!['h', '3']
    ||| t == seq!['h', '4']
    ||| t == seq!['h', '5']
    ||| t == seq!['h', '6']
}

/// Tags of elements that contain other elements.
pub open spec fn is_container_tag(t: Seq<char>) -> bool {
    ||| t == seq!['d', 'i', 'v']
    ||| t == seq!['s', 'e', 'c', 't', 'i', 'o', 'n']
}

/// Similarity of two tag names, in hundredths: identical names score 100,
/// two text tags or two container tags score 70, anything else 0.
pub open spec fn tag_similarity(tag: Seq<char>, target: Seq<char>) -> u32 {
    if tag == target {
        100
    } else if is_text_tag(tag) && is_text_tag(target) {
        70
    } else if is_container_tag(tag) && is_container_tag(target) {
        70
    } else {
        0
    }
}

/// Whether two character vectors hold the same characters.
pub fn chars_eq(a: &[char], b: &[char]) -> (r: bool)
    ensures
        r == (a@ == b@),
{
    if a.len() != b.len() {
        return false;
    }
    let mut i: usize = 0;
    while i < a.len()
        invariant
            i <= a.len(),
            a@.len() == b@.len(),
            forall|j: int| 0 <= j < i ==> a@[j] == b@[j],
        decreases a.len() - i,
    {
        if a[i] != b[i] {
            return false;
        }
        i = i + 1;
    }
    assert(a@ =~= b@);
    true
}

fn is_text_tag_chars(t: &[char]) -> (r: bool)
    ensures
        r == is_text_tag(t@),
{
    let p: [char; 1] = ['p'];
    let span: [char; 4] = ['s', 'p', 'a', 'n'];
    let h1: [char; 2] = ['h', '1'];
    let h2: [char; 2] = ['h', '2'];
    let h3: [char; 2] = ['h', '3'];
    let h4: [char; 2] = ['h', '4'];
    let h5: [char; 2] = ['h', '5'];
    let h6: [char; 2] = ['h', '6'];
    assert(p@ =~= seq!['p']);
    assert(span@ =~= seq!['s', 'p', 'a', 'n']);
    assert(h1@ =~= seq!['h', '1']);
    assert(h2@ =~= seq!['h', '2']);
    assert(h3@ =~= seq!['h', '3']);
    assert(h4@ =~= seq!['h', '4']);
    assert(h5@ =~= seq!['h', '5']);
    assert(h6@ =~= seq!['h', '6']);
    chars_eq(t, &p) || chars_eq(t, &span) || chars_eq(t, &h1) || chars_eq(t, &h2) || chars_eq(
        t,
        &h3,
    ) || chars_eq(t, &h4) || chars_eq(t, &h5) || chars_eq(t, &h6)
}

fn is_container_tag_chars(t: &[char]) -> (r: bool)
    ensures
        r == is_container_tag(t@),
{
    let div: [char; 3] = ['d', 'i', 'v'];
    let section: [char; 7] = ['s', 'e', 'c', 't', 'i', 'o', 'n'];
    assert(div@ =~= seq!['d', 'i', 'v']);
    assert(section@ =~= seq!['s', 'e', 'c', 't', 'i', 'o', 'n']);
    chars_eq(t, &div) || chars_eq(t, &section)
}

/// Compares how similar `tag` is to `target`; the score is in hundredths,
/// from 0 to 100.
pub fn compare_html_tag_name(tag: &str, target: &str) -> (r: u32)
    ensures
        r == tag_similarity(tag@, target@),
{
    let a = str_chars(tag);
    let b = str_chars(target);
    if chars_eq(a.as_slice(), b.as_slice()) {
        return 100;
    }
    if is_text_tag_chars(a.as_slice()) && is_text_tag_chars(b.as_slice()) {
        return 70;
    }
    if is_container_tag_chars(a.as_slice()) && is_container_tag_chars(b.as_slice()) {
        return 70;
    }
    0
}

/// Position of a node among the element children of its parent; 0 where
/// the parent is not an element.
pub open spec fn index_in_parent_spec(t: DomModel, el: int) -> nat {
    let p = t.parents[el];
    if el == 0 || !t.is_element(p) {
        0
    } else {
        t.element_children_between(p, p + 1, el)
    }
}

/// Computes an element's index among the element children of its parent.
pub fn index_in_parent(dom: &Dom, el: usize) -> (r: usize)
    requires
        dom@.wf(),
        el < dom@.n(),
    ensures
        r == index_in_parent_spec(dom@, el as int),
{
    if el == 0 {
        return 0;
    }
    let p = dom.parent(el);
    if !dom.is_element(p) {
        return 0;
    }
    let mut count: usize = 0;
    let mut k: usize = p + 1;
    while k < el
        invariant
            dom@.wf(),
            0 < el < dom@.n(),
            p == dom@.parents[el as int],
            p < k <= el,
            count == dom@.element_children_between(p as int, p + 1, k as int),
            count <= k,
        decreases el - k,
    {
        if dom.parent(k) == p && dom.is_element(k) {
            count = count + 1;
        }
        k = k + 1;
    }
    count
}

/// The element ancestors of a node.
fn element_ancestors(dom: &Dom, el: usize) -> (r: HashSet<usize>)
    requires
        dom@.wf(),
        el < dom@.n(),
    ensures
        forall|a: usize| #[trigger] r@.contains(a) <==> dom@.is_element_ancestor(a as int, el as int),
{
    let mut r: HashSet<usize> = HashSet::new();
    let mut cur = el;
    while cur != 0
        invariant
            dom@.wf(),
            el < dom@.n(),
            cur < dom@.n(),
            dom@.in_subtree(cur as int, el as int),
            forall|a: usize| #[trigger]
                r@.contains(a) <==> (dom@.is_element_ancestor(a as int, el as int) && cur <= a),
        decreases cur,
    {
        let ghost old_cur = cur;
        let ghost old_r = r@;
        cur = dom.parent(cur);
        proof {
            let t = dom@;
            assert(t.in_subtree(cur as int, cur as int));
            assert(t.in_subtree(cur as int, old_cur as int));
            crate::dom::lemma_subtree_trans(t, cur as int, old_cur as int, el as int);
            assert forall|a: usize|
                t.is_element_ancestor(a as int, el as int) && cur < a implies old_cur <= a by {
                assert(t.in_subtree(a as int, el as int));
                if a < old_cur {
                    lemma_subtree_nested(t, a as int, old_cur as int, el as int);
                    assert(t.in_subtree(a as int, cur as int));
                    lemma_subtree_after(t, a as int, cur as int);
                }
            }
        }
        if dom.is_element(cur) {
            r.insert(cur);
        }
        proof {
            let t = dom@;
            if !t.is_element(cur as int) {
                assert(!t.is_element_ancestor(cur as int, el as int));
            } else {
                assert(t.is_ancestor(cur as int, el as int)) by {
                    if old_cur == el {
                    } else {
                        assert(t.in_subtree(old_cur as int, t.parents[el as int])) by {
                            assert(t.in_subtree(old_cur as int, el as int));
                        }
                        crate::dom::lemma_subtree_trans(
                            t,
                            cur as int,
                            old_cur as int,
                            t.parents[el as int],
                        );
                    }
                }
            }
        }
    }
    r
}


/// `a` is an element and a proper ancestor of every node of `els`.
pub open spec fn is_common_element_ancestor(t: DomModel, els: Seq<usize>, a: int) -> bool {
    forall|i: int| 0 <= i < els.len() ==> t.is_element_ancestor(a, #[trigger] els[i] as int)
}

/// Two common ancestors of a non-empty set of nodes lie on one chain: the
/// shallower is an ancestor of the deeper, and equal depth means the same node.
pub proof fn lemma_common_ancestors_nested(t: DomModel, els: Seq<usize>, a: int, b: int)
    requires
        t.wf(),
        els.len() > 0,
        is_common_element_ancestor(t, els, a),
        is_common_element_ancestor(t, els, b),
        a <= b,
    ensures
        t.in_subtree(a, b),
        t.depth(a) <= t.depth(b),
        t.depth(a) == t.depth(b) ==> a == b,
{
    let e = els[0] as int;
    assert(t.is_element_ancestor(a, e));
    assert(t.is_element_ancestor(b, e));
    lemma_subtree_nested(t, a, b, t.parents[e]);
    lemma_subtree_depth(t, a, b);
}

/// The lowest common ancestor of a set of elements: the deepest element
/// that is a proper ancestor of all of them.  There is none for an empty
/// set, nor where the nodes share no element ancestor.
pub fn lca(dom: &Dom, elements: &[usize]) -> (r: Option<usize>)
    requires
        dom@.wf(),
        forall|i: int| 0 <= i < elements@.len() ==> #[trigger] elements@[i] < dom@.n(),
    ensures
        elements@.len() == 0 ==> r is None,
        r matches Some(a) ==> {
            &&& elements@.len() > 0
            &&& a < dom@.n()
            &&& is_common_element_ancestor(dom@, elements@, a as int)
            &&& forall|b: int|
                is_common_element_ancestor(dom@, elements@, b) ==> dom@.depth(b) <= dom@.depth(
                    a as int,
                )
        },
        (r is None && elements@.len() > 0) ==> forall|b: int|
            !is_common_element_ancestor(dom@, elements@, b),
{
    if elements.len() == 0 {
        return None;
    }
    let mut paths: Vec<HashSet<usize>> = Vec::new();
    for i in 0..elements.len()
        invariant
            dom@.wf(),
            forall|j: int| 0 <= j < elements@.len() ==> #[trigger] elements@[j] < dom@.n(),
            paths@.len() == i,
            forall|j: int, a: usize|
                0 <= j < i ==> (#[trigger] paths@[j]@.contains(a) <==> dom@.is_element_ancestor(
                    a as int,
                    elements@[j] as int,
                )),
    {
        paths.push(element_ancestors(dom, elements[i]));
    }
    let mut refs: Vec<&HashSet<usize>> = Vec::new();
    for i in 0..paths.len()
        invariant
            refs@.len() == i,
            i <= paths@.len(),
            forall|j: int| 0 <= j < i ==> #[trigger] refs@[j] == &paths@[j],
    {
        refs.push(&paths[i]);
    }
    let common = intersections(refs.as_slice());
    proof {
        assert forall|a: usize| #[trigger]
            common@.contains(a) <==> is_common_element_ancestor(dom@, elements@, a as int) by {
            if common@.contains(a) {
                assert forall|i: int| 0 <= i < elements@.len() implies dom@.is_element_ancestor(
                    a as int,
                    #[trigger] elements@[i] as int,
                ) by {
                    assert(refs@[i]@.contains(a));
                }
            }
            if is_common_element_ancestor(dom@, elements@, a as int) {
                assert forall|i: int| 0 <= i < refs@.len() implies (#[trigger] refs@[i])@.contains(a) by {
                    assert(dom@.is_element_ancestor(a as int, elements@[i] as int));
                }
            }
        }
        assert forall|b: int| is_common_element_ancestor(dom@, elements@, b) implies 0 <= b
            < dom@.n() by {
            assert(dom@.is_element_ancestor(b, elements@[0] as int));
        }
    }
    // the deepest common ancestor is the first met going up from the first element
    let first = elements[0];
    let mut cur = first;
    while cur != 0
        invariant
            dom@.wf(),
            first == elements@[0],
            first < dom@.n(),
            cur < dom@.n(),
            elements@.len() > 0,
            dom@.in_subtree(cur as int, first as int),
            forall|a: usize| #[trigger]
                common@.contains(a) <==> is_common_element_ancestor(dom@, elements@, a as int),
            forall|b: int|
                is_common_element_ancestor(dom@, elements@, b) ==> b < cur,
        decreases cur,
    {
        let ghost old_cur = cur;
        cur = dom.parent(cur);
        proof {
            let t = dom@;
            assert(t.in_subtree(cur as int, cur as int));
            assert(t.in_subtree(cur as int, old_cur as int));
            crate::dom::lemma_subtree_trans(t, cur as int, old_cur as int, first as int);
            assert forall|b: int| is_common_element_ancestor(t, elements@, b) && cur < b implies false by {
                assert(t.is_element_ancestor(b, first as int));
                assert(t.in_subtree(b, first as int));
                lemma_subtree_nested(t, b, old_cur as int, first as int);
                assert(b != old_cur);
                assert(t.in_subtree(b, cur as int));
                lemma_subtree_after(t, b, cur as int);
            }
        }
        if common.contains(&cur) {
            proof {
                assert forall|b: int| is_common_element_ancestor(dom@, elements@, b) implies dom@.depth(
                    b,
                ) <= dom@.depth(cur as int) by {
                    lemma_common_ancestors_nested(dom@, elements@, b, cur as int);
                }
            }
            return Some(cur);
        }
    }
    None
}


/// Tag similarity is symmetric; a tag is fully similar to itself and to
/// no other tag; and a similarity is 0, 70 or 100.
pub proof fn lemma_tag_similarity(a: Seq<char>, b: Seq<char>)
    ensures
        tag_similarity(a, b) == tag_similarity(b, a),
        tag_similarity(a, a) == 100,
        tag_similarity(a, b) == 100 <==> a == b,
        tag_similarity(a, b) == 0 || tag_similarity(a, b) == 70 || tag_similarity(a, b) == 100,
{
}

/// The deepest common element ancestor of a list of nodes depends only on
/// which nodes are listed, not on their order or repetitions: two lists
/// of the same nodes have the same one.
pub proof fn lemma_lca_unique(t: DomModel, els1: Seq<usize>, els2: Seq<usize>, a: int, b: int)
    requires
        t.wf(),
        els1.len() > 0,
        forall|x: usize| els1.contains(x) <==> els2.contains(x),
        is_common_element_ancestor(t, els1, a),
        forall|c: int| is_common_element_ancestor(t, els1, c) ==> t.depth(c) <= t.depth(a),
        is_common_element_ancestor(t, els2, b),
        forall|c: int| is_common_element_ancestor(t, els2, c) ==> t.depth(c) <= t.depth(b),
    ensures
        a == b,
{
    assert forall|c: int|
        is_common_element_ancestor(t, els1, c) <==> is_common_element_ancestor(t, els2, c) by {
        if is_common_element_ancestor(t, els1, c) {
            assert forall|i: int| 0 <= i < els2.len() implies t.is_element_ancestor(
                c,
                #[trigger] els2[i] as int,
            ) by {
                assert(els2.contains(els2[i]));
                let j = choose|j: int| 0 <= j < els1.len() && els1[j] == els2[i];
            }
        }
        if is_common_element_ancestor(t, els2, c) {
            assert forall|i: int| 0 <= i < els1.len() implies t.is_element_ancestor(
                c,
                #[trigger] els1[i] as int,
            ) by {
                assert(els1.contains(els1[i]));
                let j = choose|j: int| 0 <= j < els2.len() && els2[j] == els1[i];
            }
        }
    }
    if a <= b {
        lemma_common_ancestors_nested(t, els1, a, b);
    } else {
        lemma_common_ancestors_nested(t, els1, b, a);
    }
}


/// The tags that hold text: p, span and h1 to h6.
pub open spec fn listed_text_tags() -> Seq<Seq<char>> {
    seq![
        seq!['p'],
        seq!['s', 'p', 'a', 'n'],
        seq!['h', '1'],
        seq!['h', '2'],
        seq!['h', '3'],
        seq!['h', '4'],
        seq!['h', '5'],
        seq!['h', '6'],
    ]
}

/// The tags that contain others: div and section.
pub open spec fn listed_container_tags() -> Seq<Seq<char>> {
    seq![seq!['d', 'i', 'v'], seq!['s', 'e', 'c', 't', 'i', 'o', 'n']]
}

proof fn lemma_text_tag_listed(t: Seq<char>)
    ensures
        is_text_tag(t) == listed_text_tags().contains(t),
        is_container_tag(t) == listed_container_tags().contains(t),
{
    let l = listed_text_tags();
    let c = listed_container_tags();
    if is_text_tag(t) {
        if t == seq!['p'] { assert(l[0] == t); }
        else if t == seq!['s', 'p', 'a', 'n'] { assert(l[1] == t); }
        else if t == seq!['h', '1'] { assert(l[2] == t); }
        else if t == seq!['h', '2'] { assert(l[3] == t); }
        else if t == seq!['h', '3'] { assert(l[4] == t); }
        else if t == seq!['h', '4'] { assert(l[5] == t); }
        else if t == seq!['h', '5'] { assert(l[6] == t); }
        else { assert(l[7] == t); }
    }
    if l.contains(t) {
        let k = choose|k: int| 0 <= k < l.len() && l[k] == t;
        assert(0 <= k < 8);
        if k == 0 { assert(t == seq!['p']); }
        else if k == 1 { assert(t == seq!['s', 'p', 'a', 'n']); }
        else if k == 2 { assert(t == seq!['h', '1']); }
        else if k == 3 { assert(t == seq!['h', '2']); }
        else if k == 4 { assert(t == seq!['h', '3']); }
        else if k == 5 { assert(t == seq!['h', '4']); }
        else if k == 6 { assert(t == seq!['h', '5']); }
        else { assert(t == seq!['h', '6']); }
    }
    if is_container_tag(t) {
        if t == seq!['d', 'i', 'v'] { assert(c[0] == t); }
        else { assert(c[1] == t); }
    }
    if c.contains(t) {
        let k = choose|k: int| 0 <= k < c.len() && c[k] == t;
        if k == 0 { assert(t == seq!['d', 'i', 'v']); }
        else { assert(t == seq!['s', 'e', 'c', 't', 'i', 'o', 'n']); }
    }
}

/// Tag similarity by the lists of tags: equal tags score 100; two
/// different text tags (p, span, h1 to h6), or two different container
/// tags (div, section), score 70; a tag that is in neither list scores 0
/// against any other tag, and so does a text tag against a container tag.
pub proof fn lemma_tag_similarity_lists(a: Seq<char>, b: Seq<char>)
    ensures
        a == b ==> tag_similarity(a, b) == 100,
        a != b && listed_text_tags().contains(a) && listed_text_tags().contains(b) ==> tag_similarity(a, b) == 70,
        a != b && listed_container_tags().contains(a) && listed_container_tags().contains(b)
            ==> tag_similarity(a, b) == 70,
        a != b && !listed_text_tags().contains(a) && !listed_container_tags().contains(a)
            ==> tag_similarity(a, b) == 0,
        listed_text_tags().contains(a) && listed_container_tags().contains(b) ==> tag_similarity(a, b) == 0,
{
    lemma_text_tag_listed(a);
    lemma_text_tag_listed(b);
    if listed_text_tags().contains(a) && listed_container_tags().contains(b) {
        assert(a != b) by {
            if a == b {
                let k = choose|k: int| 0 <= k < 8 && listed_text_tags()[k] == a;
                let j = choose|j: int| 0 <= j < 2 && listed_container_tags()[j] == b;
                assert(a.len() <= 4);
                if j == 0 {
                    assert(b.len() == 3);
                    assert(b[0] == 'd');
                    assert(a[0] == 'p' || a[0] == 's' || a[0] == 'h');
                } else {
                    assert(b.len() == 7);
                }
            }
        }
        assert(!is_container_tag(a)) by {
            let k = choose|k: int| 0 <= k < 8 && listed_text_tags()[k] == a;
            assert(a.len() <= 4);
            if a.len() == 3 {
                assert(false);
            }
        }
    }
}

} // verus!
