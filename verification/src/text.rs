//! Character-level text helpers: whitespace splitting, lexicographic order
//! and sorting of tokens.
use vstd::prelude::*;

verus! {

/// Whether a character has the Unicode `White_Space` property: the 25
/// code points U+0009 to U+000D, U+0020, U+0085, U+00A0, U+1680, U+2000 to
/// U+200A, U+2028, U+2029, U+202F, U+205F and U+3000.
pub open spec fn unicode_white_space(c: char) -> bool {
    let v = c as int;
    ||| 0x09 <= v <= 0x0D
    ||| v == 0x20
    ||| v == 0x85
    ||| v == 0xA0
    ||| v == 0x1680
    ||| 0x2000 <= v <= 0x200A
    ||| v == 0x2028
    ||| v == 0x2029
    ||| v == 0x202F
    ||| v == 0x205F
    ||| v == 0x3000
}

/// `char::is_whitespace` answers whether the character has the Unicode
/// `White_Space` property (Unicode's `PropList.txt`), which holds of
/// exactly the code points listed at `unicode_white_space`.
pub assume_specification[ char::is_whitespace ](c: char) -> (r: bool)
    ensures
        r == unicode_white_space(c),
;

/// `String::push` appends one character at the end of the string.
pub assume_specification[ String::push ](s: &mut String, ch: char)
    ensures
        final(s)@ == old(s)@.push(ch),
;

/// The token being read, if any, as a sequence of zero or one tokens.
pub open spec fn flush(cur: Seq<char>) -> Seq<Seq<char>> {
    if cur.len() == 0 {
        seq![]
    } else {
        seq![cur]
    }
}

/// The whitespace-separated tokens of `s`, given that `cur` has been read
/// just before `s` and holds no whitespace.
pub open spec fn split_ws_from(s: Seq<char>, cur: Seq<char>) -> Seq<Seq<char>>
    decreases s.len(),
{
    if s.len() == 0 {
        flush(cur)
    } else if unicode_white_space(s[0]) {
        flush(cur) + split_ws_from(s.drop_first(), seq![])
    } else {
        split_ws_from(s.drop_first(), cur.push(s[0]))
    }
}

/// The maximal runs of non-whitespace characters of `s`, in order.
pub open spec fn split_ws(s: Seq<char>) -> Seq<Seq<char>> {
    split_ws_from(s, seq![])
}

/// Lexicographic order on character sequences, by code point.
pub open spec fn lex_le(a: Seq<char>, b: Seq<char>) -> bool
    decreases a.len(),
{
    if a.len() == 0 {
        true
    } else if b.len() == 0 {
        false
    } else if a[0] != b[0] {
        (a[0] as int) < (b[0] as int)
    } else {
        lex_le(a.drop_first(), b.drop_first())
    }
}

/// `s` is in non-decreasing lexicographic order.
pub open spec fn sorted(s: Seq<Seq<char>>) -> bool {
    forall|i: int, j: int| 0 <= i < j < s.len() ==> lex_le(#[trigger] s[i], #[trigger] s[j])
}

/// The character sequences held by a sequence of character vectors.
pub open spec fn views(v: Seq<Vec<char>>) -> Seq<Seq<char>> {
    v.map_values(|t: Vec<char>| t@)
}

/// The character sequences held by a sequence of strings.
pub open spec fn string_views(v: Seq<String>) -> Seq<Seq<char>> {
    v.map_values(|t: String| t@)
}

/// Any two sequences are comparable.
pub proof fn lemma_lex_total(a: Seq<char>, b: Seq<char>)
    ensures
        lex_le(a, b) || lex_le(b, a),
    decreases a.len(),
{
    if a.len() > 0 && b.len() > 0 {
        if a[0] == b[0] {
            lemma_lex_total(a.drop_first(), b.drop_first());
        } else {
            assert((a[0] as int) != (b[0] as int));
        }
    }
}

/// The order is transitive.
pub proof fn lemma_lex_trans(a: Seq<char>, b: Seq<char>, c: Seq<char>)
    requires
        lex_le(a, b),
        lex_le(b, c),
    ensures
        lex_le(a, c),
    decreases a.len(),
{
    if a.len() > 0 && b.len() > 0 && c.len() > 0 && a[0] == b[0] && b[0] == c[0] {
        lemma_lex_trans(a.drop_first(), b.drop_first(), c.drop_first());
    }
}

/// The order is antisymmetric.
pub proof fn lemma_lex_antisym(a: Seq<char>, b: Seq<char>)
    requires
        lex_le(a, b),
        lex_le(b, a),
    ensures
        a == b,
    decreases a.len(),
{
    if a.len() > 0 && b.len() > 0 {
        if a[0] == b[0] {
            lemma_lex_antisym(a.drop_first(), b.drop_first());
            assert(a =~= seq![a[0]] + a.drop_first());
            assert(b =~= seq![b[0]] + b.drop_first());
        } else {
            assert((a[0] as int) != (b[0] as int));
        }
    } else {
        assert(a =~= b);
    }
}

/// Two sorted sequences with the same elements are equal: sorting has one
/// result.
pub proof fn lemma_sorted_unique(a: Seq<Seq<char>>, b: Seq<Seq<char>>)
    requires
        sorted(a),
        sorted(b),
        a.to_multiset() == b.to_multiset(),
    ensures
        a == b,
    decreases a.len(),
{
    broadcast use vstd::seq_lib::group_to_multiset_ensures;

    assert(a.to_multiset().len() == a.len());
    assert(b.to_multiset().len() == b.len());
    if a.len() == 0 {
        assert(b.len() == 0);
        assert(a =~= b);
    } else {
        assert(b.len() == a.len());
        assert(a.to_multiset().count(a[0]) > 0);
        assert(b.contains(a[0]));
        let j = choose|j: int| 0 <= j < b.len() && b[j] == a[0];
        assert(a.to_multiset().count(b[0]) > 0);
        assert(a.contains(b[0]));
        let i = choose|i: int| 0 <= i < a.len() && a[i] == b[0];
        if j > 0 {
            assert(lex_le(b[0], b[j]));
        } else {
            lemma_lex_total(b[0], b[0]);
        }
        if i > 0 {
            assert(lex_le(a[0], a[i]));
        } else {
            lemma_lex_total(a[0], a[0]);
        }
        lemma_lex_antisym(a[0], b[0]);
        assert(a.remove(0) =~= a.drop_first());
        assert(b.remove(0) =~= b.drop_first());
        vstd::seq_lib::to_multiset_remove(a, 0);
        vstd::seq_lib::to_multiset_remove(b, 0);
        assert(sorted(a.drop_first())) by {
            assert forall|x: int, y: int| 0 <= x < y < a.drop_first().len() implies lex_le(
                #[trigger] a.drop_first()[x],
                #[trigger] a.drop_first()[y],
            ) by {
                assert(lex_le(a[x + 1], a[y + 1]));
            }
        }
        assert(sorted(b.drop_first())) by {
            assert forall|x: int, y: int| 0 <= x < y < b.drop_first().len() implies lex_le(
                #[trigger] b.drop_first()[x],
                #[trigger] b.drop_first()[y],
            ) by {
                assert(lex_le(b[x + 1], b[y + 1]));
            }
        }
        lemma_sorted_unique(a.drop_first(), b.drop_first());
        assert(a =~= seq![a[0]] + a.drop_first());
        assert(b =~= seq![b[0]] + b.drop_first());
    }
}

/// The characters of a string, in order.
pub fn str_chars(s: &str) -> (r: Vec<char>)
    ensures
        r@ == s@,
{
    let mut r: Vec<char> = Vec::new();
    for c in it: s.chars()
        invariant
            it.seq() == s@,
            r@ == it.seq().take(it.index() as int),
    {
        r.push(c);
    }
    r
}

/// A string made of the given characters.
pub fn chars_to_string(v: &Vec<char>) -> (r: String)
    ensures
        r@ == v@,
{
    let mut r = String::new();
    let mut i: usize = 0;
    while i < v.len()
        invariant
            i <= v.len(),
            r@ == v@.take(i as int),
        decreases v.len() - i,
    {
        r.push(v[i]);
        i = i + 1;
        assert(r@ == v@.take(i as int));
    }
    r
}

/// The maximal runs of non-whitespace characters of `s`, in order.
pub fn split_whitespace_chars(s: &Vec<char>) -> (r: Vec<Vec<char>>)
    ensures
        views(r@) == split_ws(s@),
{
    let mut out: Vec<Vec<char>> = Vec::new();
    let mut cur: Vec<char> = Vec::new();
    let mut i: usize = 0;
    assert(s@.skip(0) =~= s@);
    while i < s.len()
        invariant
            i <= s.len(),
            views(out@) + split_ws_from(s@.skip(i as int), cur@) == split_ws(s@),
        decreases s.len() - i,
    {
        let c = s[i];
        let ghost rest = s@.skip(i as int);
        let ghost old_out = views(out@);
        let ghost old_cur = cur@;
        assert(rest.drop_first() =~= s@.skip(i + 1));
        assert(rest[0] == c);
        if c.is_whitespace() {
            if cur.len() > 0 {
                out.push(cur);
                cur = Vec::new();
                assert(views(out@) =~= old_out + flush(old_cur));
            } else {
                assert(flush(old_cur) =~= seq![]);
                assert(views(out@) =~= old_out + flush(old_cur));
            }
            assert(cur@ =~= seq![]);
            assert(views(out@) + split_ws_from(s@.skip(i + 1), cur@) =~= old_out + (flush(old_cur)
                + split_ws_from(rest.drop_first(), seq![])));
        } else {
            cur.push(c);
        }
        i = i + 1;
    }
    assert(s@.skip(i as int) =~= seq![]);
    let ghost old_out = views(out@);
    if cur.len() > 0 {
        out.push(cur);
        assert(views(out@) =~= old_out + flush(cur@));
    } else {
        assert(views(out@) =~= old_out + flush(cur@));
    }
    out
}

/// Compares two character sequences lexicographically.
pub fn lex_le_chars(a: &Vec<char>, b: &Vec<char>) -> (r: bool)
    ensures
        r == lex_le(a@, b@),
{
    let mut i: usize = 0;
    assert(a@.skip(0) =~= a@ && b@.skip(0) =~= b@);
    while i < a.len() && i < b.len()
        invariant
            i <= a.len(),
            i <= b.len(),
            lex_le(a@, b@) == lex_le(a@.skip(i as int), b@.skip(i as int)),
        decreases a.len() - i,
    {
        let x = a[i];
        let y = b[i];
        proof {
            let sa = a@.skip(i as int);
            let sb = b@.skip(i as int);
            assert(sa.drop_first() =~= a@.skip(i + 1));
            assert(sb.drop_first() =~= b@.skip(i + 1));
            assert(sa[0] == x && sb[0] == y);
        }
        if x != y {
            return x < y;
        }
        i = i + 1;
    }
    i == a.len()
}

/// Inserts `x` into the sorted `out` after every element not greater than it.
fn insert_sorted(out: &mut Vec<Vec<char>>, x: Vec<char>)
    requires
        sorted(views(old(out)@)),
    ensures
        sorted(views(final(out)@)),
        views(final(out)@).to_multiset() == views(old(out)@).to_multiset().insert(x@),
{
    let mut k: usize = 0;
    while k < out.len() && lex_le_chars(&out[k], &x)
        invariant
            k <= out.len(),
            forall|j: int| 0 <= j < k ==> lex_le(#[trigger] views(out@)[j], x@),
        decreases out.len() - k,
    {
        k = k + 1;
    }
    let ghost before = views(out@);
    proof {
        if k < out.len() {
            lemma_lex_total(x@, before[k as int]);
            assert forall|j: int| k <= j < before.len() implies lex_le(x@, #[trigger] before[j]) by {
                if j > k {
                    assert(lex_le(before[k as int], before[j]));
                    lemma_lex_trans(x@, before[k as int], before[j]);
                }
            }
        }
    }
    let ghost xv = x@;
    out.insert(k, x);
    proof {
        let after = views(out@);
        assert(after =~= before.insert(k as int, xv));
        before.insert_ensures(k as int, xv);
        assert forall|i: int, j: int| 0 <= i < j < after.len() implies lex_le(
            #[trigger] after[i],
            #[trigger] after[j],
        ) by {
            if j < k {
            } else if j == k {
            } else if i < k {
                assert(after[j] == before[j - 1]);
                assert(lex_le(before[i], before[j - 1]));
            } else if i == k {
                assert(after[j] == before[j - 1]);
            } else {
                assert(after[i] == before[i - 1]);
                assert(after[j] == before[j - 1]);
            }
        }
        vstd::seq_lib::to_multiset_insert(before, k as int, xv);
    }
}

/// The tokens in non-decreasing lexicographic order.
pub fn sort_tokens(v: Vec<Vec<char>>) -> (r: Vec<Vec<char>>)
    ensures
        sorted(views(r@)),
        views(r@).to_multiset() == views(v@).to_multiset(),
{
    let ghost orig = views(v@);
    let mut out: Vec<Vec<char>> = Vec::new();
    assert(orig.take(0).to_multiset() =~= views(out@).to_multiset()) by {
        assert(orig.take(0) =~= views(out@));
    }
    for x in it: v.into_iter()
        invariant
            it.seq() == v@,
            sorted(views(out@)),
            views(out@).to_multiset() == orig.take(it.index() as int).to_multiset(),
            orig == views(v@),
    {
        let ghost idx = it.index() as int;
        assert(x == v@[idx]);
        insert_sorted(&mut out, x);
        proof {
            assert(orig.take(idx + 1) =~= orig.take(idx).push(orig[idx]));
            vstd::seq_lib::to_multiset_build(orig.take(idx), orig[idx]);
        }
    }
    assert(orig.take(v@.len() as int) =~= orig);
    out
}


/// `t` is a token: non-empty, without whitespace.
pub open spec fn is_token(t: Seq<char>) -> bool {
    &&& t.len() > 0
    &&& forall|j: int| 0 <= j < t.len() ==> !unicode_white_space(#[trigger] t[j])
}

proof fn lemma_split_ws_from_tokens(s: Seq<char>, cur: Seq<char>)
    requires
        forall|j: int| 0 <= j < cur.len() ==> !unicode_white_space(#[trigger] cur[j]),
    ensures
        forall|i: int| 0 <= i < split_ws_from(s, cur).len() ==> is_token(#[trigger] split_ws_from(s, cur)[i]),
    decreases s.len(),
{
    if cur.len() > 0 {
        assert(flush(cur) =~= seq![cur]);
        assert(is_token(cur));
    } else {
        assert(flush(cur) =~= seq![]);
    }
    if s.len() > 0 {
        let rest = s.drop_first();
        if unicode_white_space(s[0]) {
            lemma_split_ws_from_tokens(rest, seq![]);
            let a = flush(cur);
            let b = split_ws_from(rest, seq![]);
            assert(split_ws_from(s, cur) == a + b);
            assert forall|i: int| 0 <= i < (a + b).len() implies is_token(#[trigger] (a + b)[i]) by {
                if i >= a.len() {
                    assert((a + b)[i] == b[i - a.len()]);
                }
            }
        } else {
            let next = cur.push(s[0]);
            assert forall|j: int| 0 <= j < next.len() implies !unicode_white_space(#[trigger] next[j]) by {
                if j < cur.len() {
                    assert(next[j] == cur[j]);
                }
            }
            lemma_split_ws_from_tokens(rest, next);
            assert(split_ws_from(s, cur) == split_ws_from(rest, next));
        }
    } else {
        assert(split_ws_from(s, cur) == flush(cur));
    }
}

/// Splitting at whitespace gives tokens: each is non-empty and holds no
/// whitespace.
pub proof fn lemma_split_ws_tokens(s: Seq<char>)
    ensures
        forall|i: int| 0 <= i < split_ws(s).len() ==> is_token(#[trigger] split_ws(s)[i]),
{
    lemma_split_ws_from_tokens(s, seq![]);
}


/// The parts joined into one, with one space between two parts.
pub open spec fn join_with_space(parts: Seq<Seq<char>>) -> Seq<char>
    decreases parts.len(),
{
    if parts.len() == 0 {
        seq![]
    } else if parts.len() == 1 {
        parts[0]
    } else {
        join_with_space(parts.drop_last()) + seq![' '] + parts.last()
    }
}

/// Joining at least two parts puts the first part, a space, and the rest
/// joined.
proof fn lemma_join_front(v: Seq<Seq<char>>)
    requires
        v.len() >= 2,
    ensures
        join_with_space(v) == v[0] + seq![' '] + join_with_space(v.drop_first()),
    decreases v.len(),
{
    if v.len() == 2 {
        assert(v.drop_last() =~= seq![v[0]]);
        assert(v.drop_first() =~= seq![v[1]]);
        assert(join_with_space(v.drop_last()) == v[0]);
        assert(join_with_space(v.drop_first()) == v[1]);
    } else {
        let a = v.drop_last();
        let b = v.drop_first();
        lemma_join_front(a);
        assert(a.drop_first() =~= b.drop_last());
        assert(b.last() == v.last());
        assert(a[0] == v[0]);
        assert(join_with_space(b) == join_with_space(b.drop_last()) + seq![' '] + b.last());
        assert(join_with_space(v) == join_with_space(a) + seq![' '] + v.last());
        assert(join_with_space(v) =~= v[0] + seq![' '] + join_with_space(b));
    }
}

/// Reading a run of non-whitespace characters extends the token being read.
proof fn lemma_split_token_prefix(t: Seq<char>, s: Seq<char>, cur: Seq<char>)
    requires
        forall|j: int| 0 <= j < t.len() ==> !unicode_white_space(#[trigger] t[j]),
    ensures
        split_ws_from(t + s, cur) == split_ws_from(s, cur + t),
    decreases t.len(),
{
    if t.len() == 0 {
        assert(t + s =~= s);
        assert(cur + t =~= cur);
    } else {
        let rest = t.drop_first();
        assert((t + s)[0] == t[0]);
        assert((t + s).drop_first() =~= rest + s);
        assert forall|j: int| 0 <= j < rest.len() implies !unicode_white_space(#[trigger] rest[j]) by {
            assert(rest[j] == t[j + 1]);
        }
        lemma_split_token_prefix(rest, s, cur.push(t[0]));
        assert(cur.push(t[0]) + rest =~= cur + t);
    }
}

/// Splitting tokens joined with spaces gives the tokens back.
pub proof fn lemma_split_join(v: Seq<Seq<char>>)
    requires
        forall|i: int| 0 <= i < v.len() ==> is_token(#[trigger] v[i]),
    ensures
        split_ws(join_with_space(v)) == v,
    decreases v.len(),
{
    if v.len() == 0 {
        assert(split_ws(seq![]) =~= seq![]);
    } else if v.len() == 1 {
        assert(is_token(v[0]));
        lemma_split_token_prefix(v[0], seq![], seq![]);
        assert(v[0] + seq![] =~= v[0]);
        assert(seq![] + v[0] =~= v[0]);
        assert(flush(v[0]) =~= v);
    } else {
        let rest = v.drop_first();
        assert forall|i: int| 0 <= i < rest.len() implies is_token(#[trigger] rest[i]) by {
            assert(rest[i] == v[i + 1]);
        }
        lemma_split_join(rest);
        lemma_join_front(v);
        assert(is_token(v[0]));
        let tail = seq![' '] + join_with_space(rest);
        assert(join_with_space(v) =~= v[0] + tail);
        lemma_split_token_prefix(v[0], tail, seq![]);
        assert(seq![] + v[0] =~= v[0]);
        assert(tail[0] == ' ');
        assert(unicode_white_space(' '));
        assert(tail.drop_first() =~= join_with_space(rest));
        assert(flush(v[0]) =~= seq![v[0]]);
        assert(seq![v[0]] + rest =~= v);
    }
}


proof fn lemma_lex_first_difference(a: Seq<char>, b: Seq<char>, i: int)
    requires
        0 <= i < a.len(),
        i < b.len(),
        a.take(i) == b.take(i),
        (a[i] as int) < (b[i] as int),
    ensures
        lex_le(a, b),
        !lex_le(b, a),
    decreases i,
{
    if i > 0 {
        assert(a.take(i)[0] == a[0]);
        assert(b.take(i)[0] == b[0]);
        assert(a[0] == b[0]);
        let (a1, b1) = (a.drop_first(), b.drop_first());
        assert(a1.take(i - 1) =~= a.take(i).drop_first());
        assert(b1.take(i - 1) =~= b.take(i).drop_first());
        assert(a1[i - 1] == a[i] && b1[i - 1] == b[i]);
        lemma_lex_first_difference(a1, b1, i - 1);
    } else {
        assert(a[0] != b[0]);
    }
}

proof fn lemma_lex_prefix(a: Seq<char>, b: Seq<char>)
    requires
        a.len() <= b.len(),
        a == b.take(a.len() as int),
    ensures
        lex_le(a, b),
        a.len() < b.len() ==> !lex_le(b, a),
    decreases a.len(),
{
    if a.len() > 0 {
        assert(a[0] == b.take(a.len() as int)[0]);
        let (a1, b1) = (a.drop_first(), b.drop_first());
        assert(a1 =~= b1.take(a1.len() as int));
        lemma_lex_prefix(a1, b1);
    }
}

/// The order of tokens is the plain lexicographic order by code point: a
/// sequence comes before its extensions, and otherwise the first character
/// where two sequences differ decides, whatever their lengths.
pub proof fn lemma_lex_order(a: Seq<char>, b: Seq<char>)
    ensures
        a.len() <= b.len() && a == b.take(a.len() as int) ==> lex_le(a, b),
        a.len() < b.len() && a == b.take(a.len() as int) ==> !lex_le(b, a),
        forall|i: int|
            0 <= i < a.len() && i < b.len() && a.take(i) == b.take(i) && (a[i] as int) < (
            #[trigger] b[i] as int) ==> lex_le(a, b) && !lex_le(b, a),
        a.len() > 0 && b.len() > 0 && (a[0] as int) < (b[0] as int) ==> lex_le(a, b) && !lex_le(b, a),
{
    if a.len() <= b.len() && a == b.take(a.len() as int) {
        lemma_lex_prefix(a, b);
    }
    assert forall|i: int|
        0 <= i < a.len() && i < b.len() && a.take(i) == b.take(i) && (a[i] as int) < (
        #[trigger] b[i] as int) implies lex_le(a, b) && !lex_le(b, a) by {
        lemma_lex_first_difference(a, b, i);
    }
    if a.len() > 0 && b.len() > 0 && (a[0] as int) < (b[0] as int) {
        assert(a.take(0) =~= b.take(0));
        lemma_lex_first_difference(a, b, 0);
    }
}

} // verus!
