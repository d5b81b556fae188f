//! Ordering, sorting and joining of character strings, used by the
//! header encoder to serialize session entries deterministically.

use vstd::prelude::*;
use vstd::relations::{sorted_by, total_ordering};

verus! {

/// Lexicographic order on character sequences, comparing code points.
pub open spec fn lex_le(a: Seq<char>, b: Seq<char>) -> bool
    decreases a.len(),
{
    if a.len() == 0 {
        true
    } else if b.len() == 0 {
        false
    } else if (a[0] as u32) < (b[0] as u32) {
        true
    } else if (a[0] as u32) > (b[0] as u32) {
        false
    } else {
        lex_le(a.drop_first(), b.drop_first())
    }
}

proof fn lemma_lex_le_refl(a: Seq<char>)
    ensures
        lex_le(a, a),
    decreases a.len(),
{
    if a.len() != 0 {
        lemma_lex_le_refl(a.drop_first());
    }
}

proof fn lemma_lex_le_antisym(a: Seq<char>, b: Seq<char>)
    requires
        lex_le(a, b),
        lex_le(b, a),
    ensures
        a == b,
    decreases a.len(),
{
    if a.len() == 0 {
        assert(b.len() == 0);
        assert(a =~= b);
    } else {
        assert(b.len() != 0);
        assert((a[0] as u32) == (b[0] as u32));
        vstd::utf8::char_u32_cast(a[0], a[0] as u32);
        vstd::utf8::char_u32_cast(b[0], b[0] as u32);
        assert(a[0] == b[0]);
        lemma_lex_le_antisym(a.drop_first(), b.drop_first());
        assert(a.drop_first().len() == b.drop_first().len());
        assert forall|i: int| 0 <= i < a.len() implies a[i] == b[i] by {
            if i > 0 {
                assert(a.drop_first()[i - 1] == b.drop_first()[i - 1]);
            }
        }
        assert(a =~= b);
    }
}

proof fn lemma_lex_le_trans(a: Seq<char>, b: Seq<char>, c: Seq<char>)
    requires
        lex_le(a, b),
        lex_le(b, c),
    ensures
        lex_le(a, c),
    decreases a.len(),
{
    if a.len() != 0 {
        assert(b.len() != 0);
        assert(c.len() != 0);
        if (a[0] as u32) == (b[0] as u32) && (b[0] as u32) == (c[0] as u32) {
            lemma_lex_le_trans(a.drop_first(), b.drop_first(), c.drop_first());
        }
    }
}

proof fn lemma_lex_le_connected(a: Seq<char>, b: Seq<char>)
    ensures
        lex_le(a, b) || lex_le(b, a),
    decreases a.len(),
{
    if a.len() != 0 && b.len() != 0 && (a[0] as u32) == (b[0] as u32) {
        lemma_lex_le_connected(a.drop_first(), b.drop_first());
    }
}

proof fn lemma_lex_le_skip(a: Seq<char>, b: Seq<char>, i: int)
    requires
        0 <= i <= a.len(),
        i <= b.len(),
        forall|j: int| 0 <= j < i ==> a[j] == b[j],
    ensures
        lex_le(a, b) == lex_le(a.skip(i), b.skip(i)),
    decreases i,
{
    if i > 0 {
        assert(a[0] == b[0]);
        assert forall|j: int| 0 <= j < i - 1 implies a.drop_first()[j] == b.drop_first()[j] by {
            assert(a[j + 1] == b[j + 1]);
        }
        lemma_lex_le_skip(a.drop_first(), b.drop_first(), i - 1);
        assert(a.skip(i) =~= a.drop_first().skip(i - 1));
        assert(b.skip(i) =~= b.drop_first().skip(i - 1));
    } else {
        assert(a.skip(0) =~= a);
        assert(b.skip(0) =~= b);
    }
}

/// Decides `lex_le` on two string slices.
pub fn str_le(a: &str, b: &str) -> (r: bool)
    ensures
        r == lex_le(a@, b@),
{
    let la = a.unicode_len();
    let lb = b.unicode_len();
    let mut i: usize = 0;
    loop
        invariant
            i <= la,
            i <= lb,
            la == a@.len(),
            lb == b@.len(),
            forall|j: int| 0 <= j < i ==> a@[j] == b@[j],
        decreases la - i,
    {
        proof {
            lemma_lex_le_skip(a@, b@, i as int);
        }
        if i >= la {
            assert(a@.skip(i as int).len() == 0);
            return true;
        }
        if i >= lb {
            assert(b@.skip(i as int).len() == 0);
            assert(a@.skip(i as int).len() > 0);
            return false;
        }
        let ca = a.get_char(i);
        let cb = b.get_char(i);
        assert(a@.skip(i as int)[0] == a@[i as int]);
        assert(b@.skip(i as int)[0] == b@[i as int]);
        if (ca as u32) < (cb as u32) {
            return true;
        }
        if (ca as u32) > (cb as u32) {
            return false;
        }
        i = i + 1;
    }
}

/// The sequence of views of a sequence of strings.
pub open spec fn views_of(s: Seq<String>) -> Seq<Seq<char>> {
    Seq::new(s.len(), |i: int| s[i]@)
}

pub proof fn lemma_deep_view_is_views_of(v: &Vec<String>)
    ensures
        v.deep_view() == views_of(v@),
{
    assert forall|j: int| 0 <= j < v@.len() implies v.deep_view()[j] == views_of(v@)[j] by {
        assert(v.deep_view()[j] == v@[j]@);
        assert(views_of(v@)[j] == v@[j]@);
    }
    assert(v.deep_view() =~= views_of(v@));
}

pub proof fn lemma_views_of_push(s: Seq<String>, x: String)
    ensures
        views_of(s.push(x)) == views_of(s).push(x@),
{
    assert forall|j: int| 0 <= j < s.len() + 1 implies views_of(s.push(x))[j] == views_of(s).push(
        x@,
    )[j] by {
        if j < s.len() {
            assert(s.push(x)[j] == s[j]);
        } else {
            assert(s.push(x)[j] == x);
        }
    }
    assert(views_of(s.push(x)) =~= views_of(s).push(x@));
}

pub proof fn lemma_views_of_concat(a: Seq<String>, b: Seq<String>)
    ensures
        views_of(a + b) == views_of(a) + views_of(b),
{
    assert forall|j: int| 0 <= j < a.len() + b.len() implies views_of(a + b)[j] == (views_of(a)
        + views_of(b))[j] by {
        if j < a.len() {
            assert((a + b)[j] == a[j]);
        } else {
            assert((a + b)[j] == b[j - a.len()]);
        }
    }
    assert(views_of(a + b) =~= views_of(a) + views_of(b));
}

/// The views of a sequence of string pairs.
pub open spec fn pair_views(s: Seq<(String, String)>) -> Seq<(Seq<char>, Seq<char>)> {
    Seq::new(s.len(), |i: int| (s[i].0@, s[i].1@))
}

pub proof fn lemma_pair_deep_view(v: &Vec<(String, String)>)
    ensures
        v.deep_view() == pair_views(v@),
{
    assert forall|j: int| 0 <= j < v@.len() implies v.deep_view()[j] == pair_views(v@)[j] by {
        assert(v.deep_view()[j] == (v@[j].0@, v@[j].1@));
        assert(pair_views(v@)[j] == (v@[j].0@, v@[j].1@));
    }
    assert(v.deep_view() =~= pair_views(v@));
}

proof fn lemma_pair_views_push(s: Seq<(String, String)>, x: (String, String))
    ensures
        pair_views(s.push(x)) == pair_views(s).push((x.0@, x.1@)),
{
    assert forall|j: int| 0 <= j < s.len() + 1 implies pair_views(s.push(x))[j] == pair_views(
        s,
    ).push((x.0@, x.1@))[j] by {
        if j < s.len() {
            assert(s.push(x)[j] == s[j]);
        } else {
            assert(s.push(x)[j] == x);
        }
    }
    assert(pair_views(s.push(x)) =~= pair_views(s).push((x.0@, x.1@)));
}

/// Order on key/value entries: ascending by key; entries sharing a key are
/// ordered by value among themselves.
pub open spec fn pair_lex_le(a: (Seq<char>, Seq<char>), b: (Seq<char>, Seq<char>)) -> bool {
    if a.0 == b.0 {
        lex_le(a.1, b.1)
    } else {
        lex_le(a.0, b.0)
    }
}

/// `pair_lex_le` as a relation value, for use with vstd's ordering lemmas.
pub open spec fn pair_leq() -> spec_fn((Seq<char>, Seq<char>), (Seq<char>, Seq<char>)) -> bool {
    |a: (Seq<char>, Seq<char>), b: (Seq<char>, Seq<char>)| pair_lex_le(a, b)
}

proof fn lemma_pair_le_refl(a: (Seq<char>, Seq<char>))
    ensures
        pair_lex_le(a, a),
{
    lemma_lex_le_refl(a.1);
}

proof fn lemma_pair_le_antisym(a: (Seq<char>, Seq<char>), b: (Seq<char>, Seq<char>))
    requires
        pair_lex_le(a, b),
        pair_lex_le(b, a),
    ensures
        a == b,
{
    if a.0 == b.0 {
        lemma_lex_le_antisym(a.1, b.1);
        assert(a == b);
    } else {
        lemma_lex_le_antisym(a.0, b.0);
        assert(false);
    }
}

proof fn lemma_pair_le_trans(a: (Seq<char>, Seq<char>), b: (Seq<char>, Seq<char>), c: (Seq<char>, Seq<char>))
    requires
        pair_lex_le(a, b),
        pair_lex_le(b, c),
    ensures
        pair_lex_le(a, c),
{
    if a.0 == b.0 && b.0 == c.0 {
        lemma_lex_le_trans(a.1, b.1, c.1);
    } else if a.0 != b.0 && b.0 != c.0 {
        lemma_lex_le_trans(a.0, b.0, c.0);
        if a.0 == c.0 {
            lemma_lex_le_antisym(a.0, b.0);
        }
    }
}

proof fn lemma_pair_le_connected(a: (Seq<char>, Seq<char>), b: (Seq<char>, Seq<char>))
    ensures
        pair_lex_le(a, b) || pair_lex_le(b, a),
{
    if a.0 == b.0 {
        lemma_lex_le_connected(a.1, b.1);
    } else {
        lemma_lex_le_connected(a.0, b.0);
    }
}

/// `pair_lex_le` is a total order on key/value entries.
pub proof fn lemma_pair_leq_total_ordering()
    ensures
        total_ordering(pair_leq()),
{
    let r = pair_leq();
    assert forall|a: (Seq<char>, Seq<char>)| #[trigger] r(a, a) by {
        lemma_pair_le_refl(a);
    }
    assert forall|a: (Seq<char>, Seq<char>), b: (Seq<char>, Seq<char>)|
        #[trigger] r(a, b) && #[trigger] r(b, a) implies a == b by {
        lemma_pair_le_antisym(a, b);
    }
    assert forall|a: (Seq<char>, Seq<char>), b: (Seq<char>, Seq<char>), c: (Seq<char>, Seq<char>)|
        #[trigger] r(a, b) && #[trigger] r(b, c) implies r(a, c) by {
        lemma_pair_le_trans(a, b, c);
    }
    assert forall|a: (Seq<char>, Seq<char>), b: (Seq<char>, Seq<char>)|
        !(#[trigger] r(a, b)) implies r(b, a) by {
        lemma_pair_le_connected(a, b);
    }
}

/// Decides `pair_lex_le` on two string pairs.
pub fn pair_le(a: &(String, String), b: &(String, String)) -> (r: bool)
    ensures
        r == pair_lex_le((a.0@, a.1@), (b.0@, b.1@)),
{
    let kab = str_le(a.0.as_str(), b.0.as_str());
    let kba = str_le(b.0.as_str(), a.0.as_str());
    if kab && kba {
        proof {
            lemma_lex_le_antisym(a.0@, b.0@);
        }
        str_le(a.1.as_str(), b.1.as_str())
    } else {
        proof {
            if a.0@ == b.0@ {
                lemma_lex_le_refl(a.0@);
            }
        }
        kab
    }
}

/// Inserts `x` into the sorted vector `v`, keeping it sorted.
fn insert_sorted_entry(x: (String, String), v: &Vec<(String, String)>) -> (r: Vec<
    (String, String),
>)
    requires
        sorted_by(v.deep_view(), pair_leq()),
    ensures
        sorted_by(r.deep_view(), pair_leq()),
        r.deep_view().to_multiset() == v.deep_view().to_multiset().insert((x.0@, x.1@)),
{
    proof {
        lemma_pair_deep_view(v);
    }
    let ghost vd = v.deep_view();
    let ghost xv = (x.0@, x.1@);
    let mut out: Vec<(String, String)> = Vec::new();
    let mut i: usize = 0;
    proof {
        assert(pair_views(out@) =~= vd.take(0));
    }
    while i < v.len() && !pair_le(&x, &v[i])
        invariant
            i <= v.len(),
            xv == (x.0@, x.1@),
            vd == pair_views(v@),
            vd.len() == v@.len(),
            sorted_by(vd, pair_leq()),
            pair_views(out@) == vd.take(i as int),
            forall|j: int| 0 <= j < i ==> !pair_lex_le(xv, vd[j]),
        decreases v.len() - i,
    {
        let e = &v[i];
        let c = (e.0.clone(), e.1.clone());
        proof {
            assert(vd[i as int] == (v@[i as int].0@, v@[i as int].1@));
            assert((c.0@, c.1@) == vd[i as int]);
        }
        let ghost pres = out@;
        out.push(c);
        proof {
            lemma_pair_views_push(pres, c);
            assert(pair_views(out@) =~= vd.take(i + 1));
        }
        i = i + 1;
    }
    let ghost mid = i as int;
    proof {
        assert(mid < vd.len() ==> pair_lex_le(xv, vd[mid]));
    }
    let ghost pres = out@;
    out.push(x);
    proof {
        lemma_pair_views_push(pres, x);
        assert(pair_views(out@) =~= vd.take(mid) + seq![xv] + vd.subrange(mid, mid));
    }
    let mut k: usize = i;
    while k < v.len()
        invariant
            0 <= mid <= k <= v.len(),
            mid <= vd.len(),
            vd == pair_views(v@),
            vd.len() == v@.len(),
            sorted_by(vd, pair_leq()),
            forall|j: int| 0 <= j < mid ==> !pair_lex_le(xv, vd[j]),
            mid < vd.len() ==> pair_lex_le(xv, vd[mid]),
            pair_views(out@) == vd.take(mid) + seq![xv] + vd.subrange(mid, k as int),
        decreases v.len() - k,
    {
        let e = &v[k];
        let c = (e.0.clone(), e.1.clone());
        proof {
            assert(vd[k as int] == (v@[k as int].0@, v@[k as int].1@));
            assert((c.0@, c.1@) == vd[k as int]);
        }
        let ghost pres = out@;
        out.push(c);
        proof {
            lemma_pair_views_push(pres, c);
            let lhs = pair_views(out@);
            let prev = vd.take(mid) + seq![xv] + vd.subrange(mid, k as int);
            let rhs = vd.take(mid) + seq![xv] + vd.subrange(mid, k + 1);
            assert(lhs == prev.push((c.0@, c.1@)));
            assert(vd.take(mid).len() == mid);
            assert((vd.take(mid) + seq![xv]).len() == mid + 1);
            assert forall|j: int| 0 <= j < rhs.len() implies lhs[j] == rhs[j] by {
                if j < prev.len() {
                    assert(prev.push((c.0@, c.1@))[j] == prev[j]);
                    if j >= mid + 1 {
                        assert(prev[j] == ((vd.take(mid) + seq![xv]) + vd.subrange(
                            mid,
                            k as int,
                        ))[j]);
                        assert(((vd.take(mid) + seq![xv]) + vd.subrange(mid, k as int))[j]
                            == vd.subrange(mid, k as int)[j - (vd.take(mid) + seq![xv]).len()]);
                        assert(((vd.take(mid) + seq![xv]) + vd.subrange(mid, k + 1))[j]
                            == vd.subrange(mid, k + 1)[j - (vd.take(mid) + seq![xv]).len()]);
                        assert(vd.subrange(mid, k as int)[j - mid - 1] == vd[j - 1]);
                        assert(vd.subrange(mid, k + 1)[j - mid - 1] == vd[j - 1]);
                    }
                } else {
                    assert(prev.push((c.0@, c.1@))[j] == (c.0@, c.1@));
                    assert(rhs[j] == vd.subrange(mid, k + 1)[j - mid - 1]);
                    assert(vd.subrange(mid, k + 1)[j - mid - 1] == vd[k as int]);
                }
            }
            assert(lhs =~= rhs);
        }
        k = k + 1;
    }
    proof {
        lemma_pair_deep_view(&out);
        let od = out.deep_view();
        assert(vd.subrange(mid, vd.len() as int) =~= vd.skip(mid));
        assert(od == vd.take(mid) + seq![xv] + vd.skip(mid));
        assert forall|p: int, q: int| 0 <= p < q < od.len() implies #[trigger] pair_leq()(
            od[p],
            od[q],
        ) by {
            let r = pair_leq();
            if q < mid {
                assert(od[p] == vd[p] && od[q] == vd[q]);
            } else if p < mid && q == mid {
                assert(od[q] == xv);
                lemma_pair_le_connected(xv, vd[p]);
            } else if p < mid && q > mid {
                assert(od[p] == vd[p] && od[q] == vd[q - 1]);
                lemma_pair_le_connected(xv, vd[p]);
                if p == q - 1 {
                    lemma_pair_le_refl(vd[p]);
                } else {
                    assert(r(vd[p], vd[q - 1]));
                }
            } else if p == mid {
                assert(od[p] == xv && od[q] == vd[q - 1]);
                assert(mid < vd.len() && pair_lex_le(xv, vd[mid]));
                if q - 1 > mid {
                    assert(r(vd[mid], vd[q - 1]));
                    lemma_pair_le_trans(xv, vd[mid], vd[q - 1]);
                }
            } else {
                assert(od[p] == vd[p - 1] && od[q] == vd[q - 1]);
            }
        }
        assert(vd.take(mid) + seq![xv] =~= vd.take(mid).push(xv));
        vstd::seq_lib::lemma_multiset_commutative(vd.take(mid).push(xv), vd.skip(mid));
        vstd::seq_lib::lemma_multiset_commutative(vd.take(mid), vd.skip(mid));
        assert(vd.take(mid) + vd.skip(mid) =~= vd);
        vd.take(mid).to_multiset_ensures();
        assert((vd.take(mid) + seq![xv]).to_multiset() =~= vd.take(mid).to_multiset().insert(xv));
        assert(od.to_multiset() =~= vd.to_multiset().insert(xv));
    }
    out
}

/// Sorts key/value entries by `pair_lex_le`: ascending by key, entries
/// sharing a key ordered by value.
pub fn sort_entries(v: &Vec<(String, String)>) -> (r: Vec<(String, String)>)
    ensures
        sorted_by(r.deep_view(), pair_leq()),
        r.deep_view().to_multiset() == v.deep_view().to_multiset(),
{
    proof {
        lemma_pair_deep_view(v);
    }
    let ghost vd = v.deep_view();
    let mut out: Vec<(String, String)> = Vec::new();
    let mut i: usize = 0;
    proof {
        vd.take(0).to_multiset_ensures();
        assert(vd.take(0) =~= Seq::<(Seq<char>, Seq<char>)>::empty());
        assert(out.deep_view() =~= Seq::<(Seq<char>, Seq<char>)>::empty());
        assert(out.deep_view().to_multiset() =~= vd.take(0).to_multiset());
    }
    while i < v.len()
        invariant
            i <= v.len(),
            vd == pair_views(v@),
            vd.len() == v@.len(),
            sorted_by(out.deep_view(), pair_leq()),
            out.deep_view().to_multiset() == vd.take(i as int).to_multiset(),
        decreases v.len() - i,
    {
        let e = &v[i];
        let x = (e.0.clone(), e.1.clone());
        proof {
            assert(vd[i as int] == (v@[i as int].0@, v@[i as int].1@));
            assert((x.0@, x.1@) == vd[i as int]);
        }
        out = insert_sorted_entry(x, &out);
        proof {
            vd.take(i as int).to_multiset_ensures();
            assert(vd.take(i as int).push(vd[i as int]) =~= vd.take(i + 1));
        }
        i = i + 1;
    }
    proof {
        assert(vd.take(vd.len() as int) =~= vd);
    }
    out
}

/// The concatenation of the given strings, separated by commas.
pub open spec fn join_comma(s: Seq<Seq<char>>) -> Seq<char>
    decreases s.len(),
{
    if s.len() == 0 {
        Seq::empty()
    } else if s.len() == 1 {
        s[0]
    } else {
        join_comma(s.drop_last()) + seq![','] + s.last()
    }
}

/// Joins the strings of `v` with `,` between consecutive entries.
pub fn join_with_commas(v: &Vec<String>) -> (r: String)
    ensures
        r@ == join_comma(v.deep_view()),
{
    let ghost vd = v.deep_view();
    let mut r = String::new();
    let mut i: usize = 0;
    while i < v.len()
        invariant
            i <= v.len(),
            vd == v.deep_view(),
            r@ == join_comma(vd.take(i as int)),
        decreases v.len() - i,
    {
        if i > 0 {
            r.append(",");
            proof {
                reveal_strlit(",");
                assert(","@ =~= seq![',']);
            }
        }
        proof {
            assert(v@[i as int]@ == vd[i as int]);
        }
        r.append(v[i].as_str());
        proof {
            let t = vd.take(i + 1);
            assert(t.drop_last() =~= vd.take(i as int));
            assert(t.last() == vd[i as int]);
            if i == 0 {
                assert(r@ == t[0]);
            }
        }
        i = i + 1;
    }
    proof {
        assert(vd.take(vd.len() as int) =~= vd);
    }
    r
}

} // verus!
