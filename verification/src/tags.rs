//! Tag sets: the order in which a metric's tags are kept, and the
//! normal form of a tag list (sorted, without repeats) that identifies a
//! metric together with its name.
use vstd::prelude::*;
use vstd::utf8::{encode_utf8, decode_utf8, encode_utf8_decode_utf8};

verus! {

/// A tag as plain text: (key, value).
pub type TagText = (Seq<char>, Seq<char>);

/// Byte-wise lexicographic order, the order of `str`.
pub open spec fn bytes_lt(a: Seq<u8>, b: Seq<u8>) -> bool
    decreases a.len(),
{
    if a.len() == 0 {
        b.len() > 0
    } else if b.len() == 0 {
        false
    } else if a[0] != b[0] {
        a[0] < b[0]
    } else {
        bytes_lt(a.drop_first(), b.drop_first())
    }
}

/// The order of strings: byte-wise on their UTF-8 encodings.
pub open spec fn text_lt(a: Seq<char>, b: Seq<char>) -> bool {
    bytes_lt(encode_utf8(a), encode_utf8(b))
}

/// The order of tags: by key, then by value.
pub open spec fn tag_lt(p: TagText, q: TagText) -> bool {
    text_lt(p.0, q.0) || (p.0 == q.0 && text_lt(p.1, q.1))
}

/// Tags in strictly increasing order, hence without repeats.
pub open spec fn strictly_sorted(s: Seq<TagText>) -> bool {
    forall|i: int, j: int| 0 <= i < j < s.len() ==> #[trigger] tag_lt(s[i], s[j])
}

/// Two tag lists hold the same tags, however often and in whatever order.
pub open spec fn same_tags(a: Seq<TagText>, b: Seq<TagText>) -> bool {
    forall|x: TagText| a.contains(x) <==> b.contains(x)
}

/// The text of borrowed tags.
pub open spec fn tags_text(t: Seq<(&str, &str)>) -> Seq<TagText> {
    t.map_values(|p: (&str, &str)| (p.0@, p.1@))
}

/// The text of owned tags.
pub open spec fn owned_tags_text(t: Seq<(String, String)>) -> Seq<TagText> {
    t.map_values(|p: (String, String)| (p.0@, p.1@))
}

/// The normal form of a tag list: its tags sorted, each once.
pub open spec fn normal_tags(t: Seq<TagText>) -> Seq<TagText> {
    choose|r: Seq<TagText>| strictly_sorted(r) && same_tags(r, t)
}

proof fn lemma_bytes_lt_irreflexive(a: Seq<u8>)
    ensures
        !bytes_lt(a, a),
    decreases a.len(),
{
    if a.len() > 0 {
        lemma_bytes_lt_irreflexive(a.drop_first());
    }
}

proof fn lemma_bytes_lt_transitive(a: Seq<u8>, b: Seq<u8>, c: Seq<u8>)
    requires
        bytes_lt(a, b),
        bytes_lt(b, c),
    ensures
        bytes_lt(a, c),
    decreases a.len(),
{
    if a.len() > 0 && b.len() > 0 && c.len() > 0 && a[0] == b[0] && b[0] == c[0] {
        lemma_bytes_lt_transitive(a.drop_first(), b.drop_first(), c.drop_first());
    }
}

proof fn lemma_bytes_lt_total(a: Seq<u8>, b: Seq<u8>)
    requires
        a != b,
    ensures
        bytes_lt(a, b) || bytes_lt(b, a),
    decreases a.len(),
{
    if a.len() > 0 && b.len() > 0 && a[0] == b[0] {
        if a.drop_first() == b.drop_first() {
            assert(a =~= seq![a[0]] + a.drop_first());
            assert(b =~= seq![b[0]] + b.drop_first());
        }
        lemma_bytes_lt_total(a.drop_first(), b.drop_first());
    } else if a.len() == 0 && b.len() == 0 {
        assert(a =~= b);
    }
}

proof fn lemma_bytes_lt_asymmetric(a: Seq<u8>, b: Seq<u8>)
    requires
        bytes_lt(a, b),
    ensures
        !bytes_lt(b, a),
{
    if bytes_lt(b, a) {
        lemma_bytes_lt_transitive(a, b, a);
        lemma_bytes_lt_irreflexive(a);
    }
}

/// Two byte strings that agree on their first `i` bytes compare as what
/// follows.
proof fn lemma_bytes_lt_skip(a: Seq<u8>, b: Seq<u8>, i: int)
    requires
        0 <= i <= a.len(),
        i <= b.len(),
        forall|j: int| 0 <= j < i ==> a[j] == b[j],
    ensures
        bytes_lt(a, b) == bytes_lt(a.skip(i), b.skip(i)),
    decreases i,
{
    if i > 0 {
        lemma_bytes_lt_skip(a.drop_first(), b.drop_first(), i - 1);
        assert(a.drop_first().skip(i - 1) =~= a.skip(i));
        assert(b.drop_first().skip(i - 1) =~= b.skip(i));
    } else {
        assert(a.skip(0) =~= a);
        assert(b.skip(0) =~= b);
    }
}

/// Distinct texts have distinct encodings.
proof fn lemma_encoding_injective(a: Seq<char>, b: Seq<char>)
    requires
        encode_utf8(a) == encode_utf8(b),
    ensures
        a == b,
{
    encode_utf8_decode_utf8(a);
    encode_utf8_decode_utf8(b);
}

/// The order of tags is a strict total order.
pub proof fn lemma_tag_lt_order(p: TagText, q: TagText, r: TagText)
    ensures
        !tag_lt(p, p),
        tag_lt(p, q) ==> !tag_lt(q, p),
        tag_lt(p, q) && tag_lt(q, r) ==> tag_lt(p, r),
        p != q ==> tag_lt(p, q) || tag_lt(q, p),
{
    lemma_bytes_lt_irreflexive(encode_utf8(p.0));
    lemma_bytes_lt_irreflexive(encode_utf8(p.1));
    if tag_lt(p, q) {
        if text_lt(p.0, q.0) {
            lemma_bytes_lt_asymmetric(encode_utf8(p.0), encode_utf8(q.0));
        } else {
            lemma_bytes_lt_asymmetric(encode_utf8(p.1), encode_utf8(q.1));
        }
    }
    if tag_lt(p, q) && tag_lt(q, r) {
        if text_lt(p.0, q.0) && text_lt(q.0, r.0) {
            lemma_bytes_lt_transitive(encode_utf8(p.0), encode_utf8(q.0), encode_utf8(r.0));
        } else if p.0 == q.0 && q.0 == r.0 {
            lemma_bytes_lt_transitive(encode_utf8(p.1), encode_utf8(q.1), encode_utf8(r.1));
        }
    }
    if p != q {
        if p.0 != q.0 {
            if encode_utf8(p.0) == encode_utf8(q.0) {
                lemma_encoding_injective(p.0, q.0);
            }
            lemma_bytes_lt_total(encode_utf8(p.0), encode_utf8(q.0));
        } else {
            if encode_utf8(p.1) == encode_utf8(q.1) {
                lemma_encoding_injective(p.1, q.1);
            }
            lemma_bytes_lt_total(encode_utf8(p.1), encode_utf8(q.1));
        }
    }
}

/// Where one string sorts with respect to another.
#[derive(Clone, Copy, PartialEq, Eq, Structural)]
pub enum TextOrder {
    Before,
    Same,
    After,
}

/// Compares two byte strings lexicographically.
fn compare_bytes(a: &[u8], b: &[u8]) -> (r: TextOrder)
    ensures
        r == TextOrder::Before <==> bytes_lt(a@, b@),
        r == TextOrder::Same <==> a@ == b@,
        r == TextOrder::After <==> bytes_lt(b@, a@),
{
    let mut i: usize = 0;
    proof {
        lemma_bytes_lt_skip(a@, b@, 0);
        lemma_bytes_lt_skip(b@, a@, 0);
    }
    while i < a.len() && i < b.len()
        invariant
            0 <= i <= a@.len(),
            i <= b@.len(),
            forall|j: int| 0 <= j < i ==> a@[j] == b@[j],
            bytes_lt(a@, b@) == bytes_lt(a@.skip(i as int), b@.skip(i as int)),
            bytes_lt(b@, a@) == bytes_lt(b@.skip(i as int), a@.skip(i as int)),
        decreases a@.len() - i,
    {
        if a[i] != b[i] {
            proof {
                lemma_bytes_lt_irreflexive(a@);
            }
            if a[i] < b[i] {
                return TextOrder::Before;
            } else {
                return TextOrder::After;
            }
        }
        i += 1;
        proof {
            lemma_bytes_lt_skip(a@, b@, i as int);
            lemma_bytes_lt_skip(b@, a@, i as int);
        }
    }
    if a.len() == b.len() {
        assert(a@ =~= b@);
        proof {
            lemma_bytes_lt_irreflexive(a@);
        }
        TextOrder::Same
    } else if a.len() < b.len() {
        proof {
            lemma_bytes_lt_asymmetric(a@, b@);
        }
        TextOrder::Before
    } else {
        proof {
            lemma_bytes_lt_asymmetric(b@, a@);
        }
        TextOrder::After
    }
}

/// Compares two strings in the order of `str`.
pub fn compare_text(a: &str, b: &str) -> (r: TextOrder)
    ensures
        r == TextOrder::Before <==> text_lt(a@, b@),
        r == TextOrder::Same <==> a@ == b@,
        r == TextOrder::After <==> text_lt(b@, a@),
{
    let r = compare_bytes(a.as_bytes(), b.as_bytes());
    proof {
        if encode_utf8(a@) == encode_utf8(b@) {
            lemma_encoding_injective(a@, b@);
        }
    }
    r
}

/// Two strictly sorted tag lists with the same tags are equal.
pub proof fn lemma_sorted_unique(a: Seq<TagText>, b: Seq<TagText>)
    requires
        strictly_sorted(a),
        strictly_sorted(b),
        same_tags(a, b),
    ensures
        a == b,
    decreases a.len(),
{
    if a.len() == 0 {
        if b.len() > 0 {
            assert(b.contains(b[0]));
        }
        assert(a =~= b);
    } else if b.len() == 0 {
        assert(a.contains(a[0]));
    } else {
        assert(a.contains(a[0]));
        assert(b.contains(b[0]));
        let k = choose|k: int| 0 <= k < b.len() && b[k] == a[0];
        let m = choose|m: int| 0 <= m < a.len() && a[m] == b[0];
        if a[0] != b[0] {
            assert(tag_lt(a[0], a[m]));
            assert(tag_lt(b[0], b[k]));
            lemma_tag_lt_order(a[0], b[0], a[0]);
        }
        let ta = a.drop_first();
        let tb = b.drop_first();
        assert forall|x: TagText| ta.contains(x) <==> tb.contains(x) by {
            if ta.contains(x) {
                let i = choose|i: int| 0 <= i < ta.len() && ta[i] == x;
                assert(a[i + 1] == x);
                assert(tag_lt(a[0], a[i + 1]));
                lemma_tag_lt_order(a[0], x, x);
                assert(a.contains(x));
                let j = choose|j: int| 0 <= j < b.len() && b[j] == x;
                assert(j != 0);
                assert(tb[j - 1] == x);
            }
            if tb.contains(x) {
                let i = choose|i: int| 0 <= i < tb.len() && tb[i] == x;
                assert(b[i + 1] == x);
                assert(tag_lt(b[0], b[i + 1]));
                lemma_tag_lt_order(b[0], x, x);
                assert(b.contains(x));
                let j = choose|j: int| 0 <= j < a.len() && a[j] == x;
                assert(j != 0);
                assert(ta[j - 1] == x);
            }
        }
        assert(strictly_sorted(ta));
        assert(strictly_sorted(tb));
        lemma_sorted_unique(ta, tb);
        assert(a =~= seq![a[0]] + ta);
        assert(b =~= seq![b[0]] + tb);
    }
}

/// Putting a tag at the place where it sorts keeps a list strictly sorted.
proof fn lemma_insert_sorted(s: Seq<TagText>, k: int, t: TagText)
    requires
        strictly_sorted(s),
        0 <= k <= s.len(),
        forall|j: int| 0 <= j < k ==> tag_lt(#[trigger] s[j], t),
        k < s.len() ==> tag_lt(t, s[k]),
    ensures
        strictly_sorted(s.insert(k, t)),
{
    let n = s.insert(k, t);
    assert forall|i: int, j: int| 0 <= i < j < n.len() implies #[trigger] tag_lt(n[i], n[j]) by {
        if i < k && j == k {
        } else if i < k && j > k {
            assert(n[j] == s[j - 1]);
            if j - 1 > k {
                assert(tag_lt(s[k], s[j - 1]));
                lemma_tag_lt_order(t, s[k], s[j - 1]);
            }
            lemma_tag_lt_order(s[i], t, s[j - 1]);
        } else if i == k {
            assert(n[j] == s[j - 1]);
            if j - 1 > k {
                assert(tag_lt(s[k], s[j - 1]));
                lemma_tag_lt_order(t, s[k], s[j - 1]);
            }
        } else if i < k {
            assert(tag_lt(s[i], s[j]));
        } else {
            assert(n[i] == s[i - 1] && n[j] == s[j - 1]);
            assert(tag_lt(s[i - 1], s[j - 1]));
        }
    }
}

/// Compares an owned tag with a borrowed one in the order of tags.
fn compare_tag(p: &(String, String), key: &str, value: &str) -> (r: TextOrder)
    ensures
        r == TextOrder::Before <==> tag_lt((p.0@, p.1@), (key@, value@)),
        r == TextOrder::Same <==> (p.0@, p.1@) == (key@, value@),
        r == TextOrder::After <==> tag_lt((key@, value@), (p.0@, p.1@)),
{
    let by_key = compare_text(p.0.as_str(), key);
    proof {
        lemma_tag_lt_order((p.0@, p.1@), (key@, value@), (key@, value@));
    }
    match by_key {
        TextOrder::Same => compare_text(p.1.as_str(), value),
        other => other,
    }
}

/// The normal form of a tag list: its tags sorted in the order of `str`
/// (by key, then by value), each once.
pub fn normalize_tags(tags: &[(&str, &str)]) -> (r: Vec<(String, String)>)
    ensures
        strictly_sorted(owned_tags_text(r@)),
        same_tags(owned_tags_text(r@), tags_text(tags@)),
        owned_tags_text(r@) == normal_tags(tags_text(tags@)),
{
    let mut r: Vec<(String, String)> = Vec::new();
    let mut i: usize = 0;
    while i < tags.len()
        invariant
            0 <= i <= tags@.len(),
            strictly_sorted(owned_tags_text(r@)),
            same_tags(owned_tags_text(r@), tags_text(tags@.take(i as int))),
        decreases tags@.len() - i,
    {
        let (key, value) = tags[i];
        let ghost t: TagText = (key@, value@);
        let ghost rt = owned_tags_text(r@);
        let mut k: usize = 0;
        while k < r.len()
            invariant
                0 <= k <= r@.len(),
                rt == owned_tags_text(r@),
                t == (key@, value@),
                forall|j: int| 0 <= j < k ==> tag_lt(#[trigger] rt[j], t),
            ensures
                0 <= k <= r@.len(),
                k < r@.len() ==> !tag_lt(rt[k as int], t),
            decreases r@.len() - k,
        {
            let entry = &r[k];
            assert(*entry == r@[k as int]);
            let order = compare_tag(entry, key, value);
            if !matches!(order, TextOrder::Before) {
                assert(rt[k as int] == (r@[k as int].0@, r@[k as int].1@));
                break;
            }
            assert(rt[k as int] == (r@[k as int].0@, r@[k as int].1@));
            k += 1;
        }
        let ghost prefix = tags_text(tags@.take(i as int));
        assert(tags_text(tags@.take(i + 1)) =~= prefix.push(t));
        let found = k < r.len() && matches!(compare_tag(&r[k], key, value), TextOrder::Same);
        if found {
            // Already there.
            assert forall|x: TagText| rt.contains(x) <==> prefix.push(t).contains(x) by {
                if x == t {
                    assert(rt[k as int] == t);
                    assert(prefix.push(t)[prefix.len() as int] == t);
                }
                if prefix.push(t).contains(x) && x != t {
                    let j = choose|j: int| 0 <= j < prefix.push(t).len() && prefix.push(t)[j] == x;
                    assert(prefix[j] == x);
                    assert(prefix.contains(x));
                }
                if prefix.contains(x) {
                    let j = choose|j: int| 0 <= j < prefix.len() && prefix[j] == x;
                    assert(prefix.push(t)[j] == x);
                }
            }
        } else {
            proof {
                if k < r@.len() {
                    assert(rt[k as int] == (r@[k as int].0@, r@[k as int].1@));
                    assert(!tag_lt(rt[k as int], t));
                    lemma_tag_lt_order(t, rt[k as int], t);
                    assert(tag_lt(t, rt[k as int]));
                }
                lemma_insert_sorted(rt, k as int, t);
            }
            r.insert(k, (key.to_owned(), value.to_owned()));
            assert(owned_tags_text(r@) =~= rt.insert(k as int, t));
            assert forall|x: TagText| rt.insert(k as int, t).contains(x) <==> prefix.push(t).contains(x) by {
                let n = rt.insert(k as int, t);
                if n.contains(x) {
                    let j = choose|j: int| 0 <= j < n.len() && n[j] == x;
                    if j < k {
                        assert(rt[j] == x);
                        assert(rt.contains(x));
                    } else if j > k {
                        assert(rt[j - 1] == x);
                        assert(rt.contains(x));
                    }
                    if x != t {
                        let m = choose|m: int| 0 <= m < prefix.len() && prefix[m] == x;
                        assert(prefix.push(t)[m] == x);
                    } else {
                        assert(prefix.push(t)[prefix.len() as int] == t);
                    }
                }
                if prefix.push(t).contains(x) {
                    if x == t {
                        assert(n[k as int] == t);
                    } else {
                        let j = choose|j: int| 0 <= j < prefix.push(t).len() && prefix.push(t)[j] == x;
                        assert(prefix[j] == x);
                        assert(prefix.contains(x));
                        let m = choose|m: int| 0 <= m < rt.len() && rt[m] == x;
                        if m < k {
                            assert(n[m] == x);
                        } else {
                            assert(n[m + 1] == x);
                        }
                    }
                }
            }
        }
        i += 1;
    }
    assert(tags@.take(tags@.len() as int) =~= tags@);
    proof {
        let rt = owned_tags_text(r@);
        let t = tags_text(tags@);
        let c = normal_tags(t);
        assert(strictly_sorted(rt) && same_tags(rt, t));
        assert(strictly_sorted(c) && same_tags(c, t));
        assert(same_tags(c, rt));
        lemma_sorted_unique(c, rt);
    }
    r
}

/// Where `x` sorts into the sorted list `r`: the number of its tags below `x`.
pub open spec fn insertion_point(r: Seq<TagText>, x: TagText) -> int
    decreases r.len(),
{
    if r.len() == 0 {
        0
    } else if tag_lt(r.last(), x) {
        r.len() as int
    } else {
        insertion_point(r.drop_last(), x)
    }
}

proof fn lemma_insertion_point(r: Seq<TagText>, x: TagText)
    requires
        strictly_sorted(r),
    ensures
        0 <= insertion_point(r, x) <= r.len(),
        forall|j: int| 0 <= j < insertion_point(r, x) ==> tag_lt(#[trigger] r[j], x),
        insertion_point(r, x) < r.len() ==> !tag_lt(r[insertion_point(r, x)], x),
    decreases r.len(),
{
    if r.len() > 0 {
        let k = insertion_point(r, x);
        if tag_lt(r.last(), x) {
            assert forall|j: int| 0 <= j < k implies tag_lt(#[trigger] r[j], x) by {
                if j < r.len() - 1 {
                    assert(tag_lt(r[j], r[r.len() - 1]));
                    lemma_tag_lt_order(r[j], r.last(), x);
                }
            }
        } else {
            let d = r.drop_last();
            assert(strictly_sorted(d));
            lemma_insertion_point(d, x);
            assert forall|j: int| 0 <= j < k implies tag_lt(#[trigger] r[j], x) by {
                assert(r[j] == d[j]);
            }
            if k < d.len() {
                assert(r[k] == d[k]);
            }
        }
    }
}

/// Every tag list has a normal form.
pub proof fn lemma_normal_form_exists(t: Seq<TagText>)
    ensures
        exists|r: Seq<TagText>| strictly_sorted(r) && same_tags(r, t),
        strictly_sorted(normal_tags(t)) && same_tags(normal_tags(t), t),
    decreases t.len(),
{
    if t.len() == 0 {
        let e = Seq::<TagText>::empty();
        assert(strictly_sorted(e) && same_tags(e, t));
    } else {
        let d = t.drop_last();
        let x = t.last();
        lemma_normal_form_exists(d);
        let r = normal_tags(d);
        assert forall|y: TagText| t.contains(y) <==> (d.contains(y) || y == x) by {
            if t.contains(y) {
                let j = choose|j: int| 0 <= j < t.len() && t[j] == y;
                if j < t.len() - 1 {
                    assert(d[j] == y);
                }
            }
            if d.contains(y) {
                let j = choose|j: int| 0 <= j < d.len() && d[j] == y;
                assert(t[j] == y);
            }
            if y == x {
                assert(t[t.len() - 1] == y);
            }
        }
        if r.contains(x) {
            assert(strictly_sorted(r) && same_tags(r, t));
        } else {
            lemma_insertion_point(r, x);
            let k = insertion_point(r, x);
            if k < r.len() {
                if r[k] == x {
                    assert(r.contains(x));
                }
                lemma_tag_lt_order(x, r[k], x);
            }
            lemma_insert_sorted(r, k, x);
            let n = r.insert(k, x);
            assert forall|y: TagText| n.contains(y) <==> t.contains(y) by {
                if n.contains(y) {
                    let j = choose|j: int| 0 <= j < n.len() && n[j] == y;
                    if j < k {
                        assert(r[j] == y);
                        assert(r.contains(y));
                    } else if j > k {
                        assert(r[j - 1] == y);
                        assert(r.contains(y));
                    }
                }
                if t.contains(y) {
                    if y == x {
                        assert(n[k] == x);
                    } else {
                        assert(d.contains(y));
                        assert(r.contains(y));
                        let m = choose|m: int| 0 <= m < r.len() && r[m] == y;
                        if m < k {
                            assert(n[m] == y);
                        } else {
                            assert(n[m + 1] == y);
                        }
                    }
                }
            }
            assert(strictly_sorted(n) && same_tags(n, t));
        }
    }
}

/// Tag lists with the same tags, in whatever order and however often, have
/// the same normal form.
pub proof fn lemma_normal_tags_same(a: Seq<TagText>, b: Seq<TagText>)
    requires
        same_tags(a, b),
    ensures
        normal_tags(a) == normal_tags(b),
{
    lemma_normal_form_exists(a);
    lemma_normal_form_exists(b);
    let ra = normal_tags(a);
    let rb = normal_tags(b);
    assert(same_tags(ra, rb));
    lemma_sorted_unique(ra, rb);
}

} // verus!
