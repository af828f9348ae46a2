//! Byte strings: equality, the lexicographic order, prefixes, and rows of them.

use vstd::prelude::*;

verus! {

/// What a byte string holds.
pub type Bytes = Seq<u8>;

/// A tuple of encoded values.
pub type Row = Seq<Seq<u8>>;

/// Whether `a` comes before `b` in lexicographic order.
pub open spec fn before(a: Seq<u8>, b: Seq<u8>) -> bool
    decreases a.len(),
{
    if b.len() == 0 {
        false
    } else if a.len() == 0 {
        true
    } else if a[0] != b[0] {
        a[0] < b[0]
    } else {
        before(a.drop_first(), b.drop_first())
    }
}

/// Whether `s` begins with `prefix`.
pub open spec fn begins_with(s: Seq<u8>, prefix: Seq<u8>) -> bool {
    prefix.len() <= s.len() && s.take(prefix.len() as int) == prefix
}

/// Whether two byte strings hold the same bytes.
pub fn same_bytes(a: &[u8], b: &[u8]) -> (r: bool)
    ensures
        r == (a@ == b@),
{
    if a.len() != b.len() {
        return false;
    }
    let mut i: usize = 0;
    while i < a.len()
        invariant
            i <= a@.len(),
            a@.len() == b@.len(),
            forall|j: int| 0 <= j < i ==> a@[j] == b@[j],
        decreases a@.len() - i,
    {
        if a[i] != b[i] {
            return false;
        }
        i += 1;
    }
    assert(a@ =~= b@);
    true
}

/// Whether `a` comes before `b` in lexicographic order.
pub fn comes_before(a: &[u8], b: &[u8]) -> (r: bool)
    ensures
        r == before(a@, b@),
{
    let mut i: usize = 0;
    assert(a@.skip(0) =~= a@);
    assert(b@.skip(0) =~= b@);
    while i < a.len() && i < b.len()
        invariant
            i <= a@.len(),
            i <= b@.len(),
            before(a@, b@) == before(a@.skip(i as int), b@.skip(i as int)),
        decreases a@.len() - i,
    {
        if a[i] != b[i] {
            return a[i] < b[i];
        }
        assert(a@.skip(i as int).drop_first() =~= a@.skip(i + 1));
        assert(b@.skip(i as int).drop_first() =~= b@.skip(i + 1));
        i += 1;
    }
    i < b.len()
}

/// Whether `s` begins with `prefix`.
pub fn has_prefix(s: &[u8], prefix: &[u8]) -> (r: bool)
    ensures
        r == begins_with(s@, prefix@),
{
    if prefix.len() > s.len() {
        return false;
    }
    let mut i: usize = 0;
    while i < prefix.len()
        invariant
            i <= prefix@.len() <= s@.len(),
            forall|j: int| 0 <= j < i ==> s@[j] == prefix@[j],
        decreases prefix@.len() - i,
    {
        if s[i] != prefix[i] {
            assert(s@.take(prefix@.len() as int)[i as int] != prefix@[i as int]);
            return false;
        }
        i += 1;
    }
    assert(s@.take(prefix@.len() as int) =~= prefix@);
    true
}

/// A copy of a byte string.
pub fn copy_bytes(s: &[u8]) -> (r: Vec<u8>)
    ensures
        r@ == s@,
{
    vstd::slice::slice_to_vec(s)
}

/// Appends bytes.
pub fn append_bytes(out: &mut Vec<u8>, s: &[u8])
    ensures
        final(out)@ == old(out)@ + s@,
{
    let mut i: usize = 0;
    assert(out@ =~= old(out)@ + s@.take(0));
    while i < s.len()
        invariant
            i <= s@.len(),
            out@ == old(out)@ + s@.take(i as int),
        decreases s@.len() - i,
    {
        out.push(s[i]);
        i += 1;
        assert(out@ =~= old(out)@ + s@.take(i as int));
    }
    assert(s@.take(i as int) =~= s@);
}

/// The two byte strings, one after the other.
pub fn joined(a: &[u8], b: &[u8]) -> (r: Vec<u8>)
    ensures
        r@ == a@ + b@,
{
    let mut out: Vec<u8> = copy_bytes(a);
    append_bytes(&mut out, b);
    out
}

/// The bytes from position `from` up to, not including, position `to`.
pub fn slice_of(s: &[u8], from: usize, to: usize) -> (r: Vec<u8>)
    requires
        from <= to <= s@.len(),
    ensures
        r@ == s@.subrange(from as int, to as int),
{
    copy_bytes(vstd::slice::slice_subrange(s, from, to))
}

/// Whether two rows hold the same values.
pub fn same_row(a: &[Vec<u8>], b: &[Vec<u8>]) -> (r: bool)
    ensures
        r == (a.deep_view() == b.deep_view()),
{
    if a.len() != b.len() {
        assert(a.deep_view().len() != b.deep_view().len());
        return false;
    }
    let mut i: usize = 0;
    while i < a.len()
        invariant
            i <= a@.len(),
            a@.len() == b@.len(),
            forall|j: int| 0 <= j < i ==> a.deep_view()[j] == b.deep_view()[j],
        decreases a@.len() - i,
    {
        proof {
            lemma_deep_bytes(&a[i as int]);
            lemma_deep_bytes(&b[i as int]);
        }
        if !same_bytes(&a[i], &b[i]) {
            assert(a.deep_view()[i as int] != b.deep_view()[i as int]);
            return false;
        }
        i += 1;
    }
    assert(a.deep_view() =~= b.deep_view());
    true
}

/// A copy of a row.
pub fn copy_row(row: &[Vec<u8>]) -> (r: Vec<Vec<u8>>)
    ensures
        r.deep_view() == row.deep_view(),
{
    let mut out: Vec<Vec<u8>> = Vec::new();
    let mut i: usize = 0;
    while i < row.len()
        invariant
            i <= row@.len(),
            out.deep_view() == row.deep_view().take(i as int),
        decreases row@.len() - i,
    {
        let value = copy_bytes(&row[i]);
        proof {
            lemma_deep_bytes(&value);
            lemma_deep_bytes(&row[i as int]);
        }
        let ghost earlier = out;
        out.push(value);
        proof {
            lemma_deep_push(earlier, out, value);
        }
        i += 1;
        assert(out.deep_view() =~= row.deep_view().take(i as int));
    }
    assert(row.deep_view().take(i as int) =~= row.deep_view());
    out
}

/// A copy of a list of rows.
pub fn copy_rows(rows: &[Vec<Vec<u8>>]) -> (r: Vec<Vec<Vec<u8>>>)
    ensures
        r.deep_view() == rows.deep_view(),
{
    let mut out: Vec<Vec<Vec<u8>>> = Vec::new();
    let mut i: usize = 0;
    while i < rows.len()
        invariant
            i <= rows@.len(),
            out.deep_view() == rows.deep_view().take(i as int),
        decreases rows@.len() - i,
    {
        let ghost earlier = out;
        let row = copy_row(&rows[i]);
        out.push(row);
        proof {
            lemma_deep_push(earlier, out, row);
        }
        i += 1;
        assert(out.deep_view() =~= rows.deep_view().take(i as int));
    }
    assert(rows.deep_view().take(i as int) =~= rows.deep_view());
    out
}

/// Where a byte string first stands in a list, if it does.
pub fn find_bytes(list: &[Vec<u8>], wanted: &[u8]) -> (r: Option<usize>)
    ensures
        match r {
            Some(i) => i < list@.len() && list.deep_view()[i as int] == wanted@
                && forall|j: int| 0 <= j < i ==> list.deep_view()[j] != wanted@,
            None => !list.deep_view().contains(wanted@),
        },
{
    let mut i: usize = 0;
    while i < list.len()
        invariant
            i <= list@.len(),
            forall|j: int| 0 <= j < i ==> list.deep_view()[j] != wanted@,
        decreases list@.len() - i,
    {
        proof {
            lemma_deep_bytes(&list[i as int]);
        }
        if same_bytes(&list[i], wanted) {
            return Some(i);
        }
        i += 1;
    }
    None
}

/// The deep view after a push.
pub proof fn lemma_deep_push<T: DeepView>(earlier: Vec<T>, later: Vec<T>, value: T)
    requires
        later@ == earlier@.push(value),
    ensures
        later.deep_view() == earlier.deep_view().push(value.deep_view()),
{
    assert(later.deep_view() =~= earlier.deep_view().push(value.deep_view()));
}

/// The deep view of a byte string is its view.
pub broadcast proof fn lemma_deep_bytes(v: &Vec<u8>)
    ensures
        #[trigger] v.deep_view() == v@,
{
    assert(v.deep_view() =~= v@);
}

/// No byte string comes before itself.
pub proof fn lemma_before_irreflexive(a: Seq<u8>)
    ensures
        !before(a, a),
    decreases a.len(),
{
    if a.len() > 0 {
        lemma_before_irreflexive(a.drop_first());
    }
}

/// The order is transitive.
pub proof fn lemma_before_transitive(a: Seq<u8>, b: Seq<u8>, c: Seq<u8>)
    requires
        before(a, b),
        before(b, c),
    ensures
        before(a, c),
    decreases a.len(),
{
    if a.len() > 0 && a[0] == b[0] && b[0] == c[0] {
        lemma_before_transitive(a.drop_first(), b.drop_first(), c.drop_first());
    }
}

/// Of two different byte strings one comes before the other.
pub proof fn lemma_before_total(a: Seq<u8>, b: Seq<u8>)
    ensures
        a == b || before(a, b) || before(b, a),
    decreases a.len(),
{
    if a.len() == 0 {
        if b.len() == 0 {
            assert(a =~= b);
        }
    } else if b.len() > 0 && a[0] == b[0] {
        lemma_before_total(a.drop_first(), b.drop_first());
        if a.drop_first() == b.drop_first() {
            assert(a =~= seq![a[0]] + a.drop_first());
            assert(b =~= seq![b[0]] + b.drop_first());
        }
    }
}

/// Not both of two byte strings come before the other.
pub proof fn lemma_before_asymmetric(a: Seq<u8>, b: Seq<u8>)
    requires
        before(a, b),
    ensures
        !before(b, a),
        a != b,
{
    lemma_before_irreflexive(a);
    if before(b, a) {
        lemma_before_transitive(a, b, a);
    }
}

/// A byte string begins with another where the first bytes agree and so on with the rest.
pub proof fn lemma_begins_with_step(k: Seq<u8>, s: Seq<u8>)
    requires
        k.len() > 0,
        s.len() > 0,
    ensures
        begins_with(k, s) == (k[0] == s[0] && begins_with(
            k.drop_first(),
            s.drop_first(),
        )),
{
    if begins_with(k, s) {
        assert(k.take(s.len() as int)[0] == s[0]);
        assert(k.drop_first().take(s.len() - 1) =~= k.take(s.len() as int).drop_first());
    }
    if k[0] == s[0] && begins_with(k.drop_first(), s.drop_first()) {
        assert(k.take(s.len() as int) =~= seq![k[0]] + k.drop_first().take(s.len() - 1));
        assert(s =~= seq![s[0]] + s.drop_first());
    }
}

/// What begins with `m` does not come before it.
pub proof fn lemma_prefix_not_after(k: Seq<u8>, m: Seq<u8>)
    requires
        begins_with(k, m),
    ensures
        !before(k, m),
    decreases m.len(),
{
    if m.len() > 0 {
        lemma_begins_with_step(k, m);
        lemma_prefix_not_after(k.drop_first(), m.drop_first());
    }
}

/// Between two byte strings that begin with `m`, everything begins with `m`.
pub proof fn lemma_interval(a: Seq<u8>, b: Seq<u8>, c: Seq<u8>, m: Seq<u8>)
    requires
        begins_with(a, m),
        begins_with(c, m),
        !before(b, a),
        !before(c, b),
    ensures
        begins_with(b, m),
    decreases m.len(),
{
    if m.len() == 0 {
        assert(b.take(0) =~= m);
    } else {
        lemma_begins_with_step(a, m);
        lemma_begins_with_step(c, m);
        assert(b.len() > 0);
        assert(b[0] == m[0]);
        lemma_begins_with_step(b, m);
        lemma_interval(a.drop_first(), b.drop_first(), c.drop_first(), m.drop_first());
    }
}

/// Whether `order` lists the places of a list, each once, so that what stands there ascends.
pub open spec fn ascending_order(list: Seq<Seq<u8>>, order: Seq<usize>) -> bool {
    &&& order.len() == list.len()
    &&& forall|i: int| 0 <= i < order.len() ==> (#[trigger] order[i]) < list.len()
    &&& forall|i: int, j: int|
        0 <= i < j < order.len() ==> !before(
            list[#[trigger] order[j] as int],
            list[#[trigger] order[i] as int],
        )
    &&& forall|k: int| 0 <= k < list.len() ==> order.contains(#[trigger] index_of_place(k))
}

/// A place as a machine number.
pub open spec fn index_of_place(k: int) -> usize {
    k as usize
}

/// The places of a list so that what stands there ascends.
pub fn ascending_places(list: &[Vec<u8>]) -> (r: Vec<usize>)
    ensures
        ascending_order(list.deep_view(), r@),
{
    let ghost all = list.deep_view();
    let mut order: Vec<usize> = Vec::new();
    let mut k: usize = 0;
    while k < list.len()
        invariant
            k <= list@.len(),
            all == list.deep_view(),
            order@.len() == k,
            forall|i: int| 0 <= i < order@.len() ==> (#[trigger] order@[i]) < k,
            forall|i: int, j: int|
                0 <= i < j < order@.len() ==> !before(
                    all[#[trigger] order@[j] as int],
                    all[#[trigger] order@[i] as int],
                ),
            forall|m: int| 0 <= m < k ==> order@.contains(#[trigger] index_of_place(m)),
        decreases list@.len() - k,
    {
        let mut at: usize = 0;
        let ghost key = all[k as int];
        while at < order.len() && !comes_before(&list[k], &list[order[at]])
            invariant
                at <= order@.len(),
                k < list@.len(),
                all == list.deep_view(),
                key == all[k as int],
                forall|i: int| 0 <= i < order@.len() ==> (#[trigger] order@[i]) < k,
                forall|i: int| 0 <= i < at ==> !before(key, all[#[trigger] order@[i] as int]),
                at < order@.len() ==> order@[at as int] < k,
            decreases order@.len() - at,
        {
            proof {
                lemma_deep_bytes(&list@[k as int]);
                lemma_deep_bytes(&list@[order@[at as int] as int]);
            }
            at += 1;
        }
        proof {
            lemma_deep_bytes(&list@[k as int]);
            if at < order@.len() {
                lemma_deep_bytes(&list@[order@[at as int] as int]);
            }
        }
        let ghost before_insert = order@;
        order.insert(at, k);
        proof {
            let next = order@;
            assert(next =~= before_insert.take(at as int).push(k) + before_insert.skip(at as int));
            assert forall|i: int, j: int| 0 <= i < j < next.len() implies !before(
                all[#[trigger] next[j] as int],
                all[#[trigger] next[i] as int],
            ) by {
                if i < at && j < at {
                    assert(next[i] == before_insert[i] && next[j] == before_insert[j]);
                } else if i < at && j == at {
                    assert(next[i] == before_insert[i]);
                } else if i < at {
                    assert(next[i] == before_insert[i] && next[j] == before_insert[j - 1]);
                } else if i == at {
                    assert(next[j] == before_insert[j - 1]);
                    let first = all[before_insert[at as int] as int];
                    let other = all[before_insert[j - 1] as int];
                    if j - 1 > at {
                        lemma_before_total(first, other);
                    }
                    if before(other, key) {
                        lemma_before_asymmetric(other, key);
                        if first != other {
                            lemma_before_transitive(key, first, other);
                        }
                    }
                } else {
                    assert(next[i] == before_insert[i - 1] && next[j] == before_insert[j - 1]);
                }
            }
            assert forall|m: int| 0 <= m < k + 1 implies next.contains(
                #[trigger] index_of_place(m),
            ) by {
                if m < k {
                    assert(before_insert.contains(index_of_place(m)));
                    let i = before_insert.index_of(index_of_place(m));
                    if i < at {
                        assert(next[i] == before_insert[i]);
                    } else {
                        assert(next[i + 1] == before_insert[i]);
                    }
                } else {
                    assert(next[at as int] == k);
                }
            }
            assert forall|i: int| 0 <= i < next.len() implies (#[trigger] next[i]) < k + 1 by {
                if i < at {
                    assert(next[i] == before_insert[i]);
                } else if i > at {
                    assert(next[i] == before_insert[i - 1]);
                }
            }
        }
        k += 1;
    }
    order
}

} // verus!
