//! Network inventories: records of known networks and the merge that
//! reconciles two scan sources into one deduplicated, sorted list.
//!
//! The primary source supplies names with link-layer addresses; the
//! secondary source supplies names only.  Merging keeps at most one
//! record per name, sorted by name, and a name that the primary source
//! knows keeps the link address of its first primary record; every other
//! name carries the "unknown" sentinel.

use vstd::prelude::*;
use vstd::string::*;

verus! {

/// Lexicographic order on character sequences by code point, the order
/// in which merged inventories are sorted.  The empty sequence comes
/// first; a proper prefix comes before its extensions.
pub open spec fn lex_lt(a: Seq<char>, b: Seq<char>) -> bool
    decreases a.len(),
{
    if b.len() == 0 {
        false
    } else if a.len() == 0 {
        true
    } else if a[0] != b[0] {
        (a[0] as u32) < (b[0] as u32)
    } else {
        lex_lt(a.drop_first(), b.drop_first())
    }
}

/// Distinct characters have distinct code points.
proof fn lemma_char_neq(c1: char, c2: char)
    requires
        c1 != c2,
    ensures
        (c1 as u32) != (c2 as u32),
{
}

pub proof fn lemma_lex_lt_irrefl(a: Seq<char>)
    ensures
        !lex_lt(a, a),
    decreases a.len(),
{
    if a.len() > 0 {
        lemma_lex_lt_irrefl(a.drop_first());
    }
}

/// Two distinct sequences compare one way or the other.
pub proof fn lemma_lex_lt_connex(a: Seq<char>, b: Seq<char>)
    ensures
        a == b || lex_lt(a, b) || lex_lt(b, a),
    decreases a.len(),
{
    if b.len() == 0 {
        if a.len() == 0 {
            assert(a =~= b);
        }
    } else if a.len() == 0 {
    } else if a[0] != b[0] {
        lemma_char_neq(a[0], b[0]);
    } else {
        let adf = a.drop_first();
        let bdf = b.drop_first();
        lemma_lex_lt_connex(adf, bdf);
        if adf == bdf {
            assert(adf.len() == a.len() - 1);
            assert(bdf.len() == b.len() - 1);
            assert forall|i: int| 0 <= i < a.len() implies a[i] == b[i] by {
                if i > 0 {
                    assert(a[i] == adf[i - 1]);
                    assert(b[i] == bdf[i - 1]);
                }
            }
            assert(a =~= b);
        }
    }
}

pub proof fn lemma_lex_lt_asym(a: Seq<char>, b: Seq<char>)
    requires
        lex_lt(a, b),
    ensures
        !lex_lt(b, a),
    decreases a.len(),
{
    if a.len() > 0 && b.len() > 0 && a[0] == b[0] {
        lemma_lex_lt_asym(a.drop_first(), b.drop_first());
    }
}

pub proof fn lemma_lex_lt_trans(a: Seq<char>, b: Seq<char>, c: Seq<char>)
    requires
        lex_lt(a, b),
        lex_lt(b, c),
    ensures
        lex_lt(a, c),
    decreases a.len(),
{
    if b.len() > 0 && c.len() > 0 && a.len() > 0 {
        if a[0] == b[0] && b[0] == c[0] {
            lemma_lex_lt_trans(a.drop_first(), b.drop_first(), c.drop_first());
        }
    }
}

/// Compare two strings in the order of `lex_lt`.
pub fn str_lt(a: &str, b: &str) -> (r: bool)
    ensures
        r == lex_lt(a@, b@),
{
    let alen = a.unicode_len();
    let blen = b.unicode_len();
    let mut i: usize = 0;
    proof {
        assert(a@.skip(0) =~= a@);
        assert(b@.skip(0) =~= b@);
    }
    while i < alen && i < blen
        invariant
            i <= alen,
            i <= blen,
            alen == a@.len(),
            blen == b@.len(),
            lex_lt(a@, b@) == lex_lt(a@.skip(i as int), b@.skip(i as int)),
        decreases alen - i,
    {
        let ca = a.get_char(i);
        let cb = b.get_char(i);
        if ca != cb {
            proof {
                assert(a@.skip(i as int)[0] == ca && b@.skip(i as int)[0] == cb);
            }
            return (ca as u32) < (cb as u32);
        }
        proof {
            let sa = a@.skip(i as int);
            let sb = b@.skip(i as int);
            assert(sa[0] == ca && sb[0] == cb);
            assert(sa.drop_first() =~= a@.skip(i + 1));
            assert(sb.drop_first() =~= b@.skip(i + 1));
        }
        i = i + 1;
    }
    proof {
        assert(a@.skip(i as int).len() == alen - i && b@.skip(i as int).len() == blen - i);
    }
    alen < blen
}

/// One known network: its name and the link-layer address of its access
/// point, or the "unknown" sentinel when no hardware address was seen.
pub struct NetworkRecord {
    pub name: String,
    pub link_address: String,
}

impl NetworkRecord {
    /// A fresh record with the same name and link address.
    pub fn duplicate(&self) -> (r: NetworkRecord)
        ensures
            r.name@ == self.name@,
            r.link_address@ == self.link_address@,
    {
        NetworkRecord { name: self.name.clone(), link_address: self.link_address.clone() }
    }
}

/// The sentinel text recorded when a source knows a name but no
/// hardware address.
pub open spec fn unknown_link_text() -> Seq<char> {
    "(sin BSSID)"@
}

/// The sentinel link address as a string.
pub fn unknown_link() -> (s: String)
    ensures
        s@ == unknown_link_text(),
{
    String::from_str("(sin BSSID)")
}

/// Some record of `v` carries the name `n`.
pub open spec fn contains_name(v: Seq<NetworkRecord>, n: Seq<char>) -> bool {
    exists|i: int| 0 <= i < v.len() && v[i].name@ == n
}

/// Some string of `v` equals `n`.
pub open spec fn contains_str(v: Seq<String>, n: Seq<char>) -> bool {
    exists|i: int| 0 <= i < v.len() && v[i]@ == n
}

/// Strictly sorted by name: ascending and therefore free of duplicates.
pub open spec fn sorted_strict(v: Seq<NetworkRecord>) -> bool {
    forall|i: int, j: int| 0 <= i < j < v.len() ==> lex_lt(v[i].name@, v[j].name@)
}

/// `j` is the first index of `p` that carries the name `n`.
pub open spec fn is_first_match(p: Seq<NetworkRecord>, n: Seq<char>, j: int) -> bool {
    &&& 0 <= j < p.len()
    &&& p[j].name@ == n
    &&& forall|j2: int| 0 <= j2 < j ==> p[j2].name@ != n
}

/// What `merge` returns: `r` is sorted strictly by name; its names are
/// exactly those of the two sources; a name the primary source knows
/// keeps the link address of its first primary record, and every other
/// name carries the unknown sentinel.
pub open spec fn merged_correct(
    p: Seq<NetworkRecord>,
    s: Seq<String>,
    r: Seq<NetworkRecord>,
) -> bool {
    &&& sorted_strict(r)
    &&& forall|k: int|
        0 <= k < r.len() ==> contains_name(p, #[trigger] r[k].name@) || contains_str(
            s,
            r[k].name@,
        )
    &&& forall|i: int| 0 <= i < p.len() ==> contains_name(r, #[trigger] p[i].name@)
    &&& forall|i: int| 0 <= i < s.len() ==> contains_name(r, #[trigger] s[i]@)
    &&& forall|k: int, j: int|
        0 <= k < r.len() && #[trigger] is_first_match(p, r[k].name@, j) ==> r[k].link_address@
            == p[j].link_address@
    &&& forall|k: int|
        0 <= k < r.len() && !contains_name(p, #[trigger] r[k].name@) ==> r[k].link_address@
            == unknown_link_text()
}

/// How inserting one record changes the names of a sorted list and where
/// its entries come from.
proof fn lemma_insert_effect(v: Seq<NetworkRecord>, pos: int, rec: NetworkRecord)
    requires
        0 <= pos <= v.len(),
    ensures
        forall|n: Seq<char>| #[trigger]
            contains_name(v.insert(pos, rec), n) <==> (contains_name(v, n) || rec.name@ == n),
        forall|k: int|
            0 <= k < v.insert(pos, rec).len() ==> #[trigger] v.insert(pos, rec)[k] == rec
                || exists|j: int| 0 <= j < v.len() && v.insert(pos, rec)[k] == v[j],
{
    let w = v.insert(pos, rec);
    v.insert_ensures(pos, rec);
    assert forall|n: Seq<char>| #[trigger]
        contains_name(w, n) <==> (contains_name(v, n) || rec.name@ == n) by {
        if contains_name(w, n) {
            let i = choose|i: int| 0 <= i < w.len() && w[i].name@ == n;
            if i < pos {
                assert(v[i].name@ == n);
            } else if i > pos {
                assert(w[(i - 1) + 1] == v[i - 1]);
                assert(v[i - 1].name@ == n);
            }
        }
        if contains_name(v, n) {
            let j = choose|j: int| 0 <= j < v.len() && v[j].name@ == n;
            if j < pos {
                assert(w[j].name@ == n);
            } else {
                assert(w[j + 1] == v[j]);
                assert(w[j + 1].name@ == n);
            }
        }
        if rec.name@ == n {
            assert(w[pos].name@ == n);
        }
    }
    assert forall|k: int| 0 <= k < w.len() implies #[trigger] w[k] == rec || exists|j: int|
        0 <= j < v.len() && w[k] == v[j] by {
        if k < pos {
            assert(w[k] == v[k]);
        } else if k > pos {
            assert(w[(k - 1) + 1] == v[k - 1]);
        }
    }
}

/// Inserting a record between the names below it and the names above it
/// keeps the list sorted.
proof fn lemma_insert_sorted(v: Seq<NetworkRecord>, pos: int, rec: NetworkRecord)
    requires
        sorted_strict(v),
        0 <= pos <= v.len(),
        forall|j: int| 0 <= j < pos ==> lex_lt(#[trigger] v[j].name@, rec.name@),
        pos < v.len() ==> lex_lt(rec.name@, v[pos].name@),
    ensures
        sorted_strict(v.insert(pos, rec)),
{
    v.insert_ensures(pos, rec);
    let w = v.insert(pos, rec);
    assert forall|j: int, k: int| 0 <= j < k < w.len() implies lex_lt(
        w[j].name@,
        w[k].name@,
    ) by {
        if k < pos {
            assert(w[j] == v[j] && w[k] == v[k]);
        } else if j < pos && k == pos {
            assert(w[j] == v[j]);
        } else if j < pos && k > pos {
            assert(w[j] == v[j] && w[k] == v[k - 1]);
        } else if j == pos && k > pos {
            assert(w[k] == v[k - 1]);
            if k - 1 > pos {
                lemma_lex_lt_trans(rec.name@, v[pos].name@, v[k - 1].name@);
            }
        } else {
            assert(w[j] == v[j - 1] && w[k] == v[k - 1]);
        }
    }
}

/// The index at which `name` would stand in the sorted list `res`: every
/// earlier record's name comes before it, and the record at the index
/// (if any) does not.
fn lower_bound(res: &Vec<NetworkRecord>, name: &String) -> (i: usize)
    requires
        sorted_strict(res@),
    ensures
        i <= res@.len(),
        forall|j: int| 0 <= j < i ==> lex_lt(#[trigger] res@[j].name@, name@),
        i < res@.len() ==> !lex_lt(res@[i as int].name@, name@),
{
    let mut i: usize = 0;
    while i < res.len()
        invariant
            i <= res@.len(),
            forall|j: int| 0 <= j < i ==> lex_lt(#[trigger] res@[j].name@, name@),
        decreases res@.len() - i,
    {
        if !str_lt(res[i].name.as_str(), name.as_str()) {
            return i;
        }
        i = i + 1;
    }
    i
}

/// Insert `rec` at its sorted position, unless a record of the same name
/// is already present, in which case the list is left as it is: the
/// earlier source wins.
fn insert_record(res: &mut Vec<NetworkRecord>, rec: NetworkRecord)
    requires
        sorted_strict(old(res)@),
    ensures
        sorted_strict(final(res)@),
        contains_name(old(res)@, rec.name@) ==> final(res)@ == old(res)@,
        !contains_name(old(res)@, rec.name@) ==> exists|pos: int|
            0 <= pos <= old(res)@.len() && final(res)@ == old(res)@.insert(pos, rec),
{
    let i = lower_bound(res, &rec.name);
    if i < res.len() {
        if res[i].name == rec.name {
            proof {
                assert(res@[i as int].name@ == rec.name@);
                assert(contains_name(res@, rec.name@));
            }
            return ;
        }
    }
    proof {
        let v = res@;
        let n = rec.name@;
        // no record carries this name: those before i sort below it,
        // those from i on sort above it
        if (i as int) < v.len() {
            lemma_lex_lt_connex(v[i as int].name@, n);
        }
        assert forall|j: int| 0 <= j < v.len() implies v[j].name@ != n by {
            if j < i {
                if v[j].name@ == n {
                    lemma_lex_lt_irrefl(n);
                }
            } else {
                assert(lex_lt(n, v[i as int].name@));
                if j > i {
                    lemma_lex_lt_trans(n, v[i as int].name@, v[j].name@);
                }
                if v[j].name@ == n {
                    lemma_lex_lt_irrefl(n);
                }
            }
        }
        assert(!contains_name(v, n));
        if (i as int) < v.len() {
            assert(lex_lt(n, v[i as int].name@));
        }
        lemma_insert_sorted(v, i as int, rec);
    }
    res.insert(i, rec);
}

/// Merge the primary inventory with the names of the secondary source.
pub fn merge(primary: &Vec<NetworkRecord>, secondary: &Vec<String>) -> (r: Vec<NetworkRecord>)
    ensures
        merged_correct(primary@, secondary@, r@),
{
    let mut r: Vec<NetworkRecord> = Vec::new();
    let mut t: usize = 0;
    while t < primary.len()
        invariant
            t <= primary@.len(),
            sorted_strict(r@),
            forall|k: int|
                0 <= k < r@.len() ==> exists|j: int|
                    0 <= j < t && primary@[j].name@ == #[trigger] r@[k].name@,
            forall|j: int| 0 <= j < t ==> contains_name(r@, #[trigger] primary@[j].name@),
            forall|k: int, j: int|
                0 <= k < r@.len() && #[trigger] is_first_match(primary@, r@[k].name@, j)
                    ==> r@[k].link_address@ == primary@[j].link_address@,
        decreases primary@.len() - t,
    {
        let rec = primary[t].duplicate();
        let ghost r_old = r@;
        insert_record(&mut r, rec);
        proof {
            if contains_name(r_old, rec.name@) {
                assert(r@ == r_old);
            } else {
                let pos = choose|pos: int|
                    0 <= pos <= r_old.len() && r@ == r_old.insert(pos, rec);
                lemma_insert_effect(r_old, pos, rec);
                // the inserted record's name first occurs in the primary
                // list exactly here
                assert forall|k: int, j: int|
                    0 <= k < r@.len() && #[trigger] is_first_match(primary@, r@[k].name@, j)
                        implies r@[k].link_address@ == primary@[j].link_address@ by {
                    if r@[k] == rec {
                        assert(forall|j2: int|
                            0 <= j2 < t ==> primary@[j2].name@ != rec.name@);
                        assert(primary@[t as int].name@ == rec.name@);
                        if j < t as int {
                            assert(primary@[j].name@ != rec.name@);
                        }
                        if j > t as int {
                            assert(primary@[t as int].name@ == r@[k].name@);
                        }
                        assert(j == t as int);
                    } else {
                        let j0 = choose|j0: int| 0 <= j0 < r_old.len() && r@[k] == r_old[j0];
                        assert(is_first_match(primary@, r_old[j0].name@, j));
                    }
                }
            }
        }
        t = t + 1;
    }
    let mut u: usize = 0;
    while u < secondary.len()
        invariant
            u <= secondary@.len(),
            sorted_strict(r@),
            forall|k: int|
                0 <= k < r@.len() ==> contains_name(primary@, #[trigger] r@[k].name@)
                    || exists|j: int| 0 <= j < u && secondary@[j]@ == r@[k].name@,
            forall|j: int| 0 <= j < primary@.len() ==> contains_name(
                r@,
                #[trigger] primary@[j].name@,
            ),
            forall|j: int| 0 <= j < u ==> contains_name(r@, #[trigger] secondary@[j]@),
            forall|k: int, j: int|
                0 <= k < r@.len() && #[trigger] is_first_match(primary@, r@[k].name@, j)
                    ==> r@[k].link_address@ == primary@[j].link_address@,
            forall|k: int|
                0 <= k < r@.len() && !contains_name(primary@, #[trigger] r@[k].name@)
                    ==> r@[k].link_address@ == unknown_link_text(),
        decreases secondary@.len() - u,
    {
        let rec = NetworkRecord { name: secondary[u].clone(), link_address: unknown_link() };
        let ghost r_old = r@;
        insert_record(&mut r, rec);
        proof {
            if contains_name(r_old, rec.name@) {
                assert(r@ == r_old);
            } else {
                let pos = choose|pos: int|
                    0 <= pos <= r_old.len() && r@ == r_old.insert(pos, rec);
                lemma_insert_effect(r_old, pos, rec);
                // a fresh name cannot stem from the primary list, whose
                // names are all present already
                assert(!contains_name(primary@, rec.name@));
                assert forall|k: int, j: int|
                    0 <= k < r@.len() && #[trigger] is_first_match(primary@, r@[k].name@, j)
                        implies r@[k].link_address@ == primary@[j].link_address@ by {
                    if r@[k] == rec {
                        assert(primary@[j].name@ == rec.name@);
                        assert(contains_name(primary@, rec.name@));
                    } else {
                        let j0 = choose|j0: int| 0 <= j0 < r_old.len() && r@[k] == r_old[j0];
                        assert(is_first_match(primary@, r_old[j0].name@, j));
                    }
                }
                assert forall|k: int|
                    0 <= k < r@.len() && !contains_name(primary@, #[trigger] r@[k].name@)
                        implies r@[k].link_address@ == unknown_link_text() by {
                    if r@[k] != rec {
                        let j0 = choose|j0: int| 0 <= j0 < r_old.len() && r@[k] == r_old[j0];
                        assert(!contains_name(primary@, r_old[j0].name@));
                    }
                }
            }
        }
        u = u + 1;
    }
    r
}

/// Among the indices of `p` that carry `n`, some first one exists.
proof fn lemma_first_match_from(p: Seq<NetworkRecord>, n: Seq<char>, i: int)
    requires
        0 <= i <= p.len(),
        exists|j: int| i <= j < p.len() && p[j].name@ == n,
        forall|j2: int| 0 <= j2 < i ==> p[j2].name@ != n,
    ensures
        exists|j: int| is_first_match(p, n, j),
    decreases p.len() - i,
{
    if p[i].name@ == n {
        assert(is_first_match(p, n, i));
    } else {
        let j0 = choose|j: int| i <= j < p.len() && p[j].name@ == n;
        assert(i + 1 <= j0 < p.len() && p[j0].name@ == n);
        lemma_first_match_from(p, n, i + 1);
    }
}

/// A name that occurs in `p` has a first occurrence.
pub proof fn lemma_first_match_exists(p: Seq<NetworkRecord>, n: Seq<char>)
    requires
        contains_name(p, n),
    ensures
        exists|j: int| is_first_match(p, n, j),
{
    let j0 = choose|j: int| 0 <= j < p.len() && p[j].name@ == n;
    assert(0 <= j0 < p.len() && p[j0].name@ == n);
    lemma_first_match_from(p, n, 0);
}

/// Two strictly sorted lists with the same names agree position by
/// position on their names.
proof fn lemma_sorted_same_names(r1: Seq<NetworkRecord>, r2: Seq<NetworkRecord>)
    requires
        sorted_strict(r1),
        sorted_strict(r2),
        forall|n: Seq<char>| contains_name(r1, n) <==> contains_name(r2, n),
    ensures
        r1.len() == r2.len(),
        forall|k: int| 0 <= k < r1.len() ==> r1[k].name@ == r2[k].name@,
    decreases r1.len(),
{
    if r1.len() == 0 {
        if r2.len() > 0 {
            assert(contains_name(r2, r2[0].name@));
            assert(contains_name(r1, r2[0].name@));
            assert(false);
        }
    } else if r2.len() == 0 {
        assert(contains_name(r1, r1[0].name@));
        assert(contains_name(r2, r1[0].name@));
        assert(false);
    } else {
        // the heads agree: each head is its list's least name
        if r1[0].name@ != r2[0].name@ {
            assert(contains_name(r1, r1[0].name@));
            assert(contains_name(r2, r1[0].name@));
            let k2 = choose|k: int| 0 <= k < r2.len() && r2[k].name@ == r1[0].name@;
            assert(contains_name(r2, r2[0].name@));
            assert(contains_name(r1, r2[0].name@));
            let k1 = choose|k: int| 0 <= k < r1.len() && r1[k].name@ == r2[0].name@;
            assert(k2 > 0 && k1 > 0);
            assert(lex_lt(r2[0].name@, r2[k2].name@));
            assert(lex_lt(r1[0].name@, r1[k1].name@));
            lemma_lex_lt_asym(r1[0].name@, r2[0].name@);
            assert(false);
        }
        let t1 = r1.drop_first();
        let t2 = r2.drop_first();
        assert forall|i: int, j: int| 0 <= i < j < t1.len() implies lex_lt(
            t1[i].name@,
            t1[j].name@,
        ) by {
            assert(t1[i] == r1[i + 1] && t1[j] == r1[j + 1]);
        }
        assert forall|i: int, j: int| 0 <= i < j < t2.len() implies lex_lt(
            t2[i].name@,
            t2[j].name@,
        ) by {
            assert(t2[i] == r2[i + 1] && t2[j] == r2[j + 1]);
        }
        assert forall|n: Seq<char>| contains_name(t1, n) <==> contains_name(t2, n) by {
            if contains_name(t1, n) {
                let i = choose|i: int| 0 <= i < t1.len() && t1[i].name@ == n;
                assert(t1[i] == r1[i + 1]);
                assert(contains_name(r1, n));
                assert(contains_name(r2, n));
                let k = choose|k: int| 0 <= k < r2.len() && r2[k].name@ == n;
                assert(lex_lt(r1[0].name@, r1[i + 1].name@));
                if k == 0 {
                    lemma_lex_lt_irrefl(n);
                    assert(false);
                }
                assert(t2[k - 1] == r2[k]);
                assert(contains_name(t2, n));
            }
            if contains_name(t2, n) {
                let i = choose|i: int| 0 <= i < t2.len() && t2[i].name@ == n;
                assert(t2[i] == r2[i + 1]);
                assert(contains_name(r2, n));
                assert(contains_name(r1, n));
                let k = choose|k: int| 0 <= k < r1.len() && r1[k].name@ == n;
                assert(lex_lt(r2[0].name@, r2[i + 1].name@));
                if k == 0 {
                    lemma_lex_lt_irrefl(n);
                    assert(false);
                }
                assert(t1[k - 1] == r1[k]);
                assert(contains_name(t1, n));
            }
        }
        lemma_sorted_same_names(t1, t2);
        assert forall|k: int| 0 <= k < r1.len() implies r1[k].name@ == r2[k].name@ by {
            if k > 0 {
                assert(t1[k - 1] == r1[k] && t2[k - 1] == r2[k]);
            }
        }
    }
}

/// Law: the merge contract pins the result down — any two lists that
/// satisfy it for the same sources agree name for name and link for
/// link.
pub proof fn lemma_merge_deterministic(
    p: Seq<NetworkRecord>,
    s: Seq<String>,
    r1: Seq<NetworkRecord>,
    r2: Seq<NetworkRecord>,
)
    requires
        merged_correct(p, s, r1),
        merged_correct(p, s, r2),
    ensures
        r1.len() == r2.len(),
        forall|k: int|
            0 <= k < r1.len() ==> r1[k].name@ == r2[k].name@ && r1[k].link_address@
                == r2[k].link_address@,
{
    assert forall|n: Seq<char>| contains_name(r1, n) <==> contains_name(r2, n) by {
        if contains_name(r1, n) {
            let k = choose|k: int| 0 <= k < r1.len() && r1[k].name@ == n;
            assert(contains_name(p, r1[k].name@) || contains_str(s, r1[k].name@));
            if contains_name(p, n) {
                let i = choose|i: int| 0 <= i < p.len() && p[i].name@ == n;
                assert(contains_name(r2, p[i].name@));
            } else {
                let i = choose|i: int| 0 <= i < s.len() && s[i]@ == n;
                assert(contains_name(r2, s[i]@));
            }
        }
        if contains_name(r2, n) {
            let k = choose|k: int| 0 <= k < r2.len() && r2[k].name@ == n;
            assert(contains_name(p, r2[k].name@) || contains_str(s, r2[k].name@));
            if contains_name(p, n) {
                let i = choose|i: int| 0 <= i < p.len() && p[i].name@ == n;
                assert(contains_name(r1, p[i].name@));
            } else {
                let i = choose|i: int| 0 <= i < s.len() && s[i]@ == n;
                assert(contains_name(r1, s[i]@));
            }
        }
    }
    lemma_sorted_same_names(r1, r2);
    assert forall|k: int| 0 <= k < r1.len() implies r1[k].link_address@
        == r2[k].link_address@ by {
        let n = r1[k].name@;
        if contains_name(p, n) {
            lemma_first_match_exists(p, n);
            let j = choose|j: int| is_first_match(p, n, j);
            assert(is_first_match(p, r1[k].name@, j));
            assert(is_first_match(p, r2[k].name@, j));
        }
    }
}

/// The names of an inventory, in order.
pub open spec fn names_of(v: Seq<NetworkRecord>) -> Seq<String> {
    v.map_values(|rec: NetworkRecord| rec.name)
}

/// Law: merging a sorted inventory with its own names changes nothing —
/// any result the merge contract allows agrees with the inventory record
/// for record.
pub proof fn lemma_merge_idempotent(inv: Seq<NetworkRecord>, r: Seq<NetworkRecord>)
    requires
        sorted_strict(inv),
        merged_correct(inv, names_of(inv), r),
    ensures
        r.len() == inv.len(),
        forall|k: int|
            0 <= k < inv.len() ==> r[k].name@ == inv[k].name@ && r[k].link_address@
                == inv[k].link_address@,
{
    let s = names_of(inv);
    assert(merged_correct(inv, s, inv)) by {
        assert forall|k: int| 0 <= k < inv.len() implies contains_name(
            inv,
            #[trigger] inv[k].name@,
        ) by {
            assert(0 <= k < inv.len() && inv[k].name@ == inv[k].name@);
        }
        assert forall|i: int| 0 <= i < s.len() implies contains_name(inv, #[trigger] s[i]@) by {
            assert(s[i] == inv[i].name);
            assert(contains_name(inv, inv[i].name@));
        }
        assert forall|k: int, j: int|
            0 <= k < inv.len() && #[trigger] is_first_match(inv, inv[k].name@, j)
                implies inv[k].link_address@ == inv[j].link_address@ by {
            if j < k {
                assert(lex_lt(inv[j].name@, inv[k].name@));
                lemma_lex_lt_irrefl(inv[k].name@);
            }
            if j > k {
                // k sits before j and carries the same name, so j
                // would not be the first match
                assert(inv[k].name@ != inv[k].name@);
            }
            assert(j == k);
        }
    }
    lemma_merge_deterministic(inv, s, inv, r);
}

} // verus!
