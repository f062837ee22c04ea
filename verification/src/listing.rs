use vstd::prelude::*;
use vstd::utf8::encode_utf8;
use crate::text::{lowercase, to_lowercase};

verus! {

/// One entry of a directory listing.
#[derive(Debug)]
pub struct FileEntry {
    pub name: String,
    pub is_dir: bool,
    pub size: u64,
}

/// `a` comes before `b`, or equals it, in the byte-wise lexicographic order
/// by which strings compare.
pub open spec fn bytes_le(a: Seq<u8>, b: Seq<u8>) -> bool
    decreases a.len(),
{
    if a.len() == 0 {
        true
    } else if b.len() == 0 {
        false
    } else if a[0] != b[0] {
        a[0] < b[0]
    } else {
        bytes_le(a.drop_first(), b.drop_first())
    }
}

/// Any two byte strings are ordered one way or the other.
pub proof fn lemma_bytes_le_total(a: Seq<u8>, b: Seq<u8>)
    ensures
        bytes_le(a, b) || bytes_le(b, a),
    decreases a.len(),
{
    if a.len() > 0 && b.len() > 0 && a[0] == b[0] {
        lemma_bytes_le_total(a.drop_first(), b.drop_first());
    }
}

/// The order of byte strings is transitive.
pub proof fn lemma_bytes_le_transitive(a: Seq<u8>, b: Seq<u8>, c: Seq<u8>)
    requires
        bytes_le(a, b),
        bytes_le(b, c),
    ensures
        bytes_le(a, c),
    decreases a.len(),
{
    if a.len() > 0 && b.len() > 0 && c.len() > 0 && a[0] == b[0] && b[0] == c[0] {
        lemma_bytes_le_transitive(a.drop_first(), b.drop_first(), c.drop_first());
    }
}

/// Whether `a` comes before `b`, or equals it, comparing bytes.
pub fn bytes_le_exec(a: &[u8], b: &[u8]) -> (res: bool)
    ensures
        res == bytes_le(a@, b@),
{
    let mut i: usize = 0;
    proof {
        assert(a@.skip(0) =~= a@);
        assert(b@.skip(0) =~= b@);
    }
    while i < a.len() && i < b.len() && a[i] == b[i]
        invariant
            i <= a@.len(),
            i <= b@.len(),
            bytes_le(a@, b@) == bytes_le(a@.skip(i as int), b@.skip(i as int)),
        decreases a.len() - i,
    {
        proof {
            assert(a@.skip(i as int).drop_first() =~= a@.skip(i + 1));
            assert(b@.skip(i as int).drop_first() =~= b@.skip(i + 1));
        }
        i = i + 1;
    }
    if i == a.len() {
        true
    } else if i == b.len() {
        false
    } else {
        a[i] < b[i]
    }
}

/// Where `insert_by_key` puts `x` in `s`: after the last item whose key
/// comes before `x`'s or equals it.
pub open spec fn insert_position<T>(s: Seq<(Seq<u8>, T)>, x: (Seq<u8>, T)) -> int
    decreases s.len(),
{
    if s.len() == 0 {
        0
    } else if bytes_le(s.last().0, x.0) {
        s.len() as int
    } else {
        insert_position(s.drop_last(), x)
    }
}

/// `x` put into `s` after the last item whose key comes before `x`'s or
/// equals it.
pub open spec fn insert_by_key<T>(s: Seq<(Seq<u8>, T)>, x: (Seq<u8>, T)) -> Seq<(Seq<u8>, T)>
    decreases s.len(),
{
    if s.len() == 0 {
        seq![x]
    } else if bytes_le(s.last().0, x.0) {
        s.push(x)
    } else {
        insert_by_key(s.drop_last(), x).push(s.last())
    }
}

/// The items of `s` in the order of their keys; items with equal keys keep
/// the order they had in `s`.
pub open spec fn sort_by_key<T>(s: Seq<(Seq<u8>, T)>) -> Seq<(Seq<u8>, T)>
    decreases s.len(),
{
    if s.len() == 0 {
        s
    } else {
        insert_by_key(sort_by_key(s.drop_last()), s.last())
    }
}

/// The keys of `s` come in order.
pub open spec fn keys_sorted<T>(s: Seq<(Seq<u8>, T)>) -> bool {
    forall|i: int, j: int| 0 <= i < j < s.len() ==> bytes_le(#[trigger] s[i].0, #[trigger] s[j].0)
}

proof fn lemma_insert_position<T>(s: Seq<(Seq<u8>, T)>, x: (Seq<u8>, T))
    ensures
        0 <= insert_position(s, x) <= s.len(),
        insert_by_key(s, x) == s.insert(insert_position(s, x), x),
        forall|q: int|
            insert_position(s, x) <= q < s.len() ==> !bytes_le(#[trigger] s[q].0, x.0),
        insert_position(s, x) > 0 ==> bytes_le(s[insert_position(s, x) - 1].0, x.0),
    decreases s.len(),
{
    if s.len() == 0 {
        assert(s.insert(0, x) =~= seq![x]);
    } else if bytes_le(s.last().0, x.0) {
        assert(s.insert(s.len() as int, x) =~= s.push(x));
    } else {
        let t = s.drop_last();
        lemma_insert_position(t, x);
        let p: int = insert_position(t, x);
        assert(s.insert(p, x) =~= t.insert(p, x).push(s.last()));
        assert forall|q: int| p <= q < s.len() implies !bytes_le(#[trigger] s[q].0, x.0) by {
            if q < t.len() {
                assert(s[q] == t[q]);
            }
        }
    }
}

/// Finding the place by the rule above gives the same sequence as
/// `insert_by_key`.
proof fn lemma_insert_at<T>(s: Seq<(Seq<u8>, T)>, x: (Seq<u8>, T), p: int)
    requires
        0 <= p <= s.len(),
        forall|q: int| p <= q < s.len() ==> !bytes_le(#[trigger] s[q].0, x.0),
        p > 0 ==> bytes_le(s[p - 1].0, x.0),
    ensures
        insert_by_key(s, x) == s.insert(p, x),
{
    lemma_insert_position(s, x);
    let r: int = insert_position(s, x);
    if r < p {
        assert(!bytes_le(s[p - 1].0, x.0));
    } else if r > p {
        assert(bytes_le(s[r - 1].0, x.0));
        assert(!bytes_le(s[r - 1].0, x.0));
    }
}

proof fn lemma_insert_keeps_sorted<T>(s: Seq<(Seq<u8>, T)>, x: (Seq<u8>, T))
    requires
        keys_sorted(s),
    ensures
        keys_sorted(insert_by_key(s, x)),
        insert_by_key(s, x).to_multiset() == s.to_multiset().insert(x),
        insert_by_key(s, x).len() == s.len() + 1,
{
    lemma_insert_position(s, x);
    let p: int = insert_position(s, x);
    let r = s.insert(p, x);
    s.insert_ensures(p, x);
    vstd::seq_lib::to_multiset_insert(s, p, x);
    assert forall|i: int, j: int| 0 <= i < j < r.len() implies bytes_le(
        #[trigger] r[i].0,
        #[trigger] r[j].0,
    ) by {
        if j < p {
            assert(r[i] == s[i] && r[j] == s[j]);
        } else if j == p {
            assert(r[i] == s[i]);
            if i < p - 1 {
                lemma_bytes_le_transitive(s[i].0, s[p - 1].0, x.0);
            }
        } else if i == p {
            assert(r[j] == s[j - 1]);
            lemma_bytes_le_total(s[j - 1].0, x.0);
        } else if i < p {
            assert(r[i] == s[i] && r[j] == s[j - 1]);
        } else {
            assert(r[i] == s[i - 1] && r[j] == s[j - 1]);
        }
    }
}

/// Sorting by key gives the same items, as many times each, with their
/// keys in order.
pub proof fn law_sort_orders_and_keeps_items<T>(s: Seq<(Seq<u8>, T)>)
    ensures
        keys_sorted(sort_by_key(s)),
        sort_by_key(s).to_multiset() == s.to_multiset(),
        sort_by_key(s).len() == s.len(),
    decreases s.len(),
{
    if s.len() == 0 {
    } else {
        law_sort_orders_and_keeps_items(s.drop_last());
        lemma_insert_keeps_sorted(sort_by_key(s.drop_last()), s.last());
        vstd::seq_lib::to_multiset_build(s.drop_last(), s.last());
        assert(s.drop_last().push(s.last()) =~= s);
    }
}

/// Each item of `s` tagged with its position in `s`.
pub open spec fn tagged<T>(s: Seq<(Seq<u8>, T)>) -> Seq<(Seq<u8>, (int, T))> {
    Seq::new(s.len(), |i: int| (s[i].0, (i, s[i].1)))
}

/// The items without their position tags.
pub open spec fn untagged<T>(s: Seq<(Seq<u8>, (int, T))>) -> Seq<(Seq<u8>, T)> {
    s.map_values(|p: (Seq<u8>, (int, T))| (p.0, p.1.1))
}

proof fn lemma_insert_untagged<T>(t: Seq<(Seq<u8>, (int, T))>, x: (Seq<u8>, (int, T)))
    ensures
        untagged(insert_by_key(t, x)) == insert_by_key(untagged(t), (x.0, x.1.1)),
    decreases t.len(),
{
    let ux = (x.0, x.1.1);
    if t.len() == 0 {
        assert(untagged(seq![x]) =~= seq![ux]);
    } else {
        assert(untagged(t).last() == (t.last().0, t.last().1.1));
        assert(untagged(t).drop_last() =~= untagged(t.drop_last()));
        if bytes_le(t.last().0, x.0) {
            assert(untagged(t.push(x)) =~= untagged(t).push(ux));
        } else {
            lemma_insert_untagged(t.drop_last(), x);
            let inner = insert_by_key(t.drop_last(), x);
            assert(untagged(inner.push(t.last())) =~= untagged(inner).push(untagged(t).last()));
        }
    }
}

proof fn lemma_sort_untagged<T>(t: Seq<(Seq<u8>, (int, T))>)
    ensures
        untagged(sort_by_key(t)) == sort_by_key(untagged(t)),
    decreases t.len(),
{
    if t.len() == 0 {
        assert(untagged(t) =~= Seq::<(Seq<u8>, T)>::empty());
    } else {
        lemma_sort_untagged(t.drop_last());
        lemma_insert_untagged(sort_by_key(t.drop_last()), t.last());
        assert(untagged(t).drop_last() =~= untagged(t.drop_last()));
        assert(untagged(t).last() == (t.last().0, t.last().1.1));
    }
}

proof fn lemma_bytes_le_reflexive(a: Seq<u8>)
    ensures
        bytes_le(a, a),
{
    lemma_bytes_le_total(a, a);
}

proof fn lemma_sort_tagged_stable<T>(s: Seq<(Seq<u8>, T)>)
    ensures
        ({
            let r = sort_by_key(tagged(s));
            &&& r.len() == s.len()
            &&& forall|i: int| 0 <= i < r.len() ==> 0 <= #[trigger] r[i].1.0 < s.len()
            &&& forall|i: int, j: int|
                0 <= i < j < r.len() && #[trigger] r[i].0 == #[trigger] r[j].0 ==> r[i].1.0 < r[j].1.0
        }),
    decreases s.len(),
{
    if s.len() > 0 {
        let n = s.len() - 1;
        let prefix = s.drop_last();
        lemma_sort_tagged_stable(prefix);
        assert(tagged(s).drop_last() =~= tagged(prefix));
        let t = sort_by_key(tagged(prefix));
        let x = tagged(s).last();
        assert(x == (s[n].0, (n, s[n].1)));
        lemma_insert_position(t, x);
        let p: int = insert_position(t, x);
        let r = t.insert(p, x);
        t.insert_ensures(p, x);
        assert(sort_by_key(tagged(s)) == r);
        assert forall|i: int| 0 <= i < r.len() implies 0 <= #[trigger] r[i].1.0 < s.len() by {
            if i < p {
                assert(r[i] == t[i]);
            } else if i > p {
                assert(r[i] == t[i - 1]);
            }
        }
        assert forall|i: int, j: int|
            0 <= i < j < r.len() && #[trigger] r[i].0 == #[trigger] r[j].0 implies r[i].1.0
            < r[j].1.0 by {
            if j < p {
                assert(r[i] == t[i] && r[j] == t[j]);
            } else if j == p {
                assert(r[i] == t[i]);
            } else if i == p {
                assert(r[j] == t[j - 1]);
                lemma_bytes_le_reflexive(x.0);
            } else if i < p {
                assert(r[i] == t[i] && r[j] == t[j - 1]);
            } else {
                assert(r[i] == t[i - 1] && r[j] == t[j - 1]);
            }
        }
    }
}

/// Sorting by key is stable: tag every item with its position, sort, and
/// the items come out as sorting gives them, with every two items of equal
/// keys in the order of their positions.
pub proof fn law_sort_is_stable<T>(s: Seq<(Seq<u8>, T)>)
    ensures
        untagged(sort_by_key(tagged(s))) == sort_by_key(s),
        forall|i: int, j: int|
            0 <= i < j < sort_by_key(tagged(s)).len() && #[trigger] sort_by_key(tagged(s))[i].0
                == #[trigger] sort_by_key(tagged(s))[j].0 ==> sort_by_key(tagged(s))[i].1.0
                < sort_by_key(tagged(s))[j].1.0,
{
    lemma_sort_untagged(tagged(s));
    assert(untagged(tagged(s)) =~= s);
    lemma_sort_tagged_stable(s);
}

/// The keyed items as their keys' bytes and the items.
pub open spec fn keyed_view<T>(items: Seq<(Vec<u8>, T)>) -> Seq<(Seq<u8>, T)> {
    items.map_values(|p: (Vec<u8>, T)| (p.0@, p.1))
}

/// The items without their keys.
pub open spec fn unkeyed<T>(s: Seq<(Seq<u8>, T)>) -> Seq<T> {
    s.map_values(|p: (Seq<u8>, T)| p.1)
}

/// Sorts items by their keys, keeping the order of items with equal keys,
/// and gives the items without the keys.
pub fn sort_keyed<T>(items: Vec<(Vec<u8>, T)>) -> (res: Vec<T>)
    ensures
        res@ == unkeyed(sort_by_key(keyed_view(items@))),
{
    let ghost orig = keyed_view(items@);
    let ghost n = items@.len();
    let mut rest = items;
    let mut sorted: Vec<(Vec<u8>, T)> = Vec::new();
    let ghost mut done: int = 0;
    proof {
        assert(keyed_view(sorted@) =~= sort_by_key(orig.take(0)));
        assert(keyed_view(rest@) =~= orig.skip(0));
    }
    while rest.len() > 0
        invariant
            orig.len() == n,
            0 <= done <= n,
            done + rest@.len() == n,
            keyed_view(sorted@) == sort_by_key(orig.take(done)),
            keyed_view(rest@) == orig.skip(done),
        decreases rest.len(),
    {
        let ghost old_rest = rest@;
        let item = rest.remove(0);
        let ghost x = (item.0@, item.1);
        proof {
            assert(keyed_view(old_rest)[0] == x);
            assert(orig.skip(done)[0] == x);
            assert forall|k: int| 0 <= k < rest@.len() implies keyed_view(rest@)[k] == orig.skip(
                done + 1,
            )[k] by {
                assert(rest@[k] == old_rest[k + 1]);
                assert(keyed_view(old_rest)[k + 1] == orig.skip(done)[k + 1]);
            }
            assert(keyed_view(rest@) =~= orig.skip(done + 1));
        }
        let mut j: usize = sorted.len();
        while j > 0 && !bytes_le_exec(sorted[j - 1].0.as_slice(), item.0.as_slice())
            invariant
                j <= sorted@.len(),
                x.0 == item.0@,
                forall|q: int|
                    j <= q < sorted@.len() ==> !bytes_le(#[trigger] keyed_view(sorted@)[q].0, x.0),
            decreases j,
        {
            proof {
                assert(keyed_view(sorted@)[j - 1].0 == sorted@[j - 1].0@);
            }
            j = j - 1;
        }
        let ghost before = keyed_view(sorted@);
        proof {
            lemma_insert_at(before, x, j as int);
        }
        sorted.insert(j, item);
        proof {
            assert(keyed_view(sorted@) =~= before.insert(j as int, x));
            assert(orig.take(done + 1).drop_last() =~= orig.take(done));
            assert(orig.take(done + 1).last() == x);
            done = done + 1;
        }
    }
    proof {
        assert(orig.take(done) =~= orig);
    }
    let ghost full = keyed_view(sorted@);
    let mut out: Vec<T> = Vec::new();
    while sorted.len() > 0
        invariant
            out@.len() + sorted@.len() == full.len(),
            out@ == unkeyed(full).take(out@.len() as int),
            keyed_view(sorted@) == full.skip(out@.len() as int),
        decreases sorted.len(),
    {
        let ghost old_sorted = sorted@;
        let (k, v) = sorted.remove(0);
        proof {
            assert(keyed_view(old_sorted)[0].1 == v);
            assert(full.skip(out@.len() as int)[0].1 == v);
            assert forall|q: int| 0 <= q < sorted@.len() implies keyed_view(sorted@)[q] == full.skip(
                out@.len() as int + 1,
            )[q] by {
                assert(sorted@[q] == old_sorted[q + 1]);
                assert(keyed_view(old_sorted)[q + 1] == full.skip(out@.len() as int)[q + 1]);
            }
            assert(keyed_view(sorted@) =~= full.skip(out@.len() as int + 1));
        }
        out.push(v);
        proof {
            assert(out@ =~= unkeyed(full).take(out@.len() as int));
        }
    }
    proof {
        assert(out@ =~= unkeyed(full));
    }
    out
}

/// The key by which a listing is ordered: the UTF-8 bytes of the lowercase
/// form of the entry's name.
pub open spec fn name_key(name: Seq<char>) -> Seq<u8> {
    encode_utf8(lowercase(name))
}

/// The entries keyed by their names' sort keys.
pub open spec fn keyed_by_name(entries: Seq<FileEntry>) -> Seq<(Seq<u8>, FileEntry)> {
    entries.map_values(|e: FileEntry| (name_key(e.name@), e))
}

/// Orders the entries of a listing by their lowercase names, compared as
/// strings are; entries whose lowercase names are equal keep their order.
pub fn sort_entries(entries: Vec<FileEntry>) -> (res: Vec<FileEntry>)
    ensures
        res@ == unkeyed(sort_by_key(keyed_by_name(entries@))),
{
    let ghost orig = entries@;
    let mut rest = entries;
    let mut keyed: Vec<(Vec<u8>, FileEntry)> = Vec::new();
    while rest.len() > 0
        invariant
            keyed@.len() + rest@.len() == orig.len(),
            keyed_view(keyed@) == keyed_by_name(orig).take(keyed@.len() as int),
            rest@ == orig.skip(keyed@.len() as int),
        decreases rest.len(),
    {
        let e = rest.remove(0);
        let lower = to_lowercase(e.name.as_str());
        let key = lower.as_str().as_bytes_vec();
        proof {
            assert(orig.skip(keyed@.len() as int)[0] == e);
            assert(rest@ =~= orig.skip(keyed@.len() as int + 1));
        }
        keyed.push((key, e));
        proof {
            assert(keyed_view(keyed@) =~= keyed_by_name(orig).take(keyed@.len() as int));
        }
    }
    proof {
        assert(keyed_view(keyed@) =~= keyed_by_name(orig));
    }
    sort_keyed(keyed)
}


/// Every item of `t` is keyed by its entry's name.
pub open spec fn keyed_by_own_name(t: Seq<(Seq<u8>, FileEntry)>) -> bool {
    forall|i: int| 0 <= i < t.len() ==> #[trigger] t[i].0 == name_key(t[i].1.name@)
}

proof fn lemma_unkeyed_counts(t: Seq<(Seq<u8>, FileEntry)>, e: FileEntry)
    requires
        keyed_by_own_name(t),
    ensures
        unkeyed(t).to_multiset().count(e) == t.to_multiset().count((name_key(e.name@), e)),
    decreases t.len(),
{
    broadcast use vstd::multiset::group_multiset_axioms;

    if t.len() == 0 {
        assert(unkeyed(t) =~= Seq::<FileEntry>::empty());
        t.to_multiset_ensures();
        unkeyed(t).to_multiset_ensures();
    } else {
        let u = t.drop_last();
        let p = t.last();
        assert(keyed_by_own_name(u)) by {
            assert forall|i: int| 0 <= i < u.len() implies #[trigger] u[i].0 == name_key(
                u[i].1.name@,
            ) by {
                assert(u[i] == t[i]);
            }
        }
        lemma_unkeyed_counts(u, e);
        assert(t =~= u.push(p));
        assert(unkeyed(t) =~= unkeyed(u).push(p.1));
        vstd::seq_lib::to_multiset_build(u, p);
        vstd::seq_lib::to_multiset_build(unkeyed(u), p.1);
        assert(p.0 == name_key(p.1.name@));
    }
}

/// A listing sorted by `sort_entries` holds the same entries, as many times
/// each, and their names come in order of their lowercase forms.
pub proof fn law_listing_sorted_by_name(entries: Seq<FileEntry>)
    ensures
        ({
            let r = unkeyed(sort_by_key(keyed_by_name(entries)));
            &&& r.len() == entries.len()
            &&& r.to_multiset() == entries.to_multiset()
            &&& forall|i: int, j: int|
                0 <= i < j < r.len() ==> bytes_le(
                    name_key(#[trigger] r[i].name@),
                    name_key(#[trigger] r[j].name@),
                )
        }),
{
    broadcast use vstd::multiset::group_multiset_axioms;

    let s = keyed_by_name(entries);
    let sorted = sort_by_key(s);
    let r = unkeyed(sorted);
    law_sort_orders_and_keeps_items(s);
    assert(keyed_by_own_name(s));
    assert(unkeyed(s) =~= entries);
    assert(keyed_by_own_name(sorted)) by {
        assert forall|i: int| 0 <= i < sorted.len() implies #[trigger] sorted[i].0 == name_key(
            sorted[i].1.name@,
        ) by {
            vstd::seq_lib::to_multiset_contains(sorted, sorted[i]);
            assert(sorted.contains(sorted[i]));
            vstd::seq_lib::to_multiset_contains(s, sorted[i]);
            let k: int = choose|k: int| 0 <= k < s.len() && s[k] == sorted[i];
            assert(s[k].0 == name_key(s[k].1.name@));
        }
    }
    assert forall|e: FileEntry| #[trigger] r.to_multiset().count(e) == entries.to_multiset().count(
        e,
    ) by {
        lemma_unkeyed_counts(sorted, e);
        lemma_unkeyed_counts(s, e);
    }
    assert(r.to_multiset() =~= entries.to_multiset());
    assert forall|i: int, j: int| 0 <= i < j < r.len() implies bytes_le(
        name_key(#[trigger] r[i].name@),
        name_key(#[trigger] r[j].name@),
    ) by {
        assert(bytes_le(sorted[i].0, sorted[j].0));
    }
}


/// `a` comes before `b`, or equals it, lexicographically: the two agree up
/// to some place, where `a` ends or holds the smaller byte.
pub open spec fn lexicographically_le(a: Seq<u8>, b: Seq<u8>) -> bool {
    exists|k: int|
        0 <= k <= a.len() && k <= b.len() && #[trigger] a.take(k) == b.take(k) && (k == a.len() || (
        k < b.len() && a[k] < b[k]))
}

proof fn lemma_bytes_le_lexicographic(a: Seq<u8>, b: Seq<u8>)
    requires
        bytes_le(a, b),
    ensures
        lexicographically_le(a, b),
    decreases a.len(),
{
    if a.len() == 0 {
        assert(a.take(0) =~= b.take(0));
    } else if a[0] != b[0] {
        assert(a.take(0) =~= b.take(0));
    } else {
        let a1 = a.drop_first();
        let b1 = b.drop_first();
        lemma_bytes_le_lexicographic(a1, b1);
        let k: int = choose|k: int|
            0 <= k <= a1.len() && k <= b1.len() && #[trigger] a1.take(k) == b1.take(k) && (k
                == a1.len() || (k < b1.len() && a1[k] < b1[k]));
        assert(a.take(k + 1) =~= seq![a[0]] + a1.take(k));
        assert(b.take(k + 1) =~= seq![b[0]] + b1.take(k));
        assert(a.take(k + 1) == b.take(k + 1));
        if k < a1.len() {
            assert(a[k + 1] == a1[k]);
            assert(b[k + 1] == b1[k]);
        }
    }
}

/// A sorted listing orders its entries by the whole UTF-8 bytes of their
/// lowercase names, compared lexicographically, and no entry is added or
/// lost.
pub proof fn law_listing_in_lowercase_order(entries: Seq<FileEntry>)
    ensures
        unkeyed(sort_by_key(keyed_by_name(entries))).to_multiset() == entries.to_multiset(),
        forall|i: int, j: int|
            0 <= i < j < unkeyed(sort_by_key(keyed_by_name(entries))).len() ==> lexicographically_le(
                encode_utf8(lowercase(#[trigger] unkeyed(sort_by_key(keyed_by_name(entries)))[i].name@)),
                encode_utf8(lowercase(#[trigger] unkeyed(sort_by_key(keyed_by_name(entries)))[j].name@)),
            ),
{
    law_listing_sorted_by_name(entries);
    let r = unkeyed(sort_by_key(keyed_by_name(entries)));
    assert forall|i: int, j: int| 0 <= i < j < r.len() implies lexicographically_le(
        encode_utf8(lowercase(#[trigger] r[i].name@)),
        encode_utf8(lowercase(#[trigger] r[j].name@)),
    ) by {
        lemma_bytes_le_lexicographic(
            encode_utf8(lowercase(r[i].name@)),
            encode_utf8(lowercase(r[j].name@)),
        );
    }
}

}
