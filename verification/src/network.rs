//! The network-interface query: a stateless enumeration of the machine's
//! interfaces, grouped name → addresses, loopback interfaces left out.

use vstd::prelude::*;

use crate::models::NetworkInterface;
use crate::text::{chars_of, seq_has_string};

verus! {

/// The view of one enumerated address: interface name, address text, whether
/// it is a loopback address.
pub open spec fn tv(s: Seq<(String, String, bool)>) -> Seq<(Seq<char>, Seq<char>, bool)> {
    s.map(|i: int, t: (String, String, bool)| (t.0@, t.1@, t.2))
}

/// The distinct non-loopback interface names, in order of first appearance.
pub open spec fn group_names(s: Seq<(Seq<char>, Seq<char>, bool)>) -> Seq<Seq<char>>
    decreases s.len(),
{
    if s.len() == 0 {
        Seq::empty()
    } else {
        let prev = group_names(s.drop_last());
        let t = s.last();
        if t.2 || prev.contains(t.0) {
            prev
        } else {
            prev.push(t.0)
        }
    }
}

/// The non-loopback addresses enumerated under the name, in order.
pub open spec fn addrs_of(s: Seq<(Seq<char>, Seq<char>, bool)>, name: Seq<char>) -> Seq<Seq<char>>
    decreases s.len(),
{
    if s.len() == 0 {
        Seq::empty()
    } else {
        let prev = addrs_of(s.drop_last(), name);
        let t = s.last();
        if !t.2 && t.0 == name {
            prev.push(t.1)
        } else {
            prev
        }
    }
}

/// Lexicographic order on character sequences, by code point; equal
/// sequences and proper prefixes come first.
pub open spec fn lex_le(a: Seq<char>, b: Seq<char>) -> bool
    decreases a.len(),
{
    if a.len() == 0 {
        true
    } else if b.len() == 0 {
        false
    } else if (a[0] as u32) == (b[0] as u32) {
        lex_le(a.drop_first(), b.drop_first())
    } else {
        (a[0] as u32) < (b[0] as u32)
    }
}

/// The order is total.
pub proof fn lemma_lex_total(a: Seq<char>, b: Seq<char>)
    ensures
        lex_le(a, b) || lex_le(b, a),
    decreases a.len(),
{
    if a.len() > 0 && b.len() > 0 && (a[0] as u32) == (b[0] as u32) {
        lemma_lex_total(a.drop_first(), b.drop_first());
    }
}

/// The order is transitive.
pub proof fn lemma_lex_trans(a: Seq<char>, b: Seq<char>, c: Seq<char>)
    requires
        lex_le(a, b),
        lex_le(b, c),
    ensures
        lex_le(a, c),
    decreases a.len(),
{
    if a.len() > 0 && b.len() > 0 && c.len() > 0 {
        if (a[0] as u32) == (b[0] as u32) && (b[0] as u32) == (c[0] as u32) {
            lemma_lex_trans(a.drop_first(), b.drop_first(), c.drop_first());
        }
    }
}

/// Whether one string comes at or before the other in lexicographic order.
fn str_le(a: &String, b: &String) -> (r: bool)
    ensures
        r == lex_le(a@, b@),
{
    let av = chars_of(a.as_str());
    let bv = chars_of(b.as_str());
    let mut i: usize = 0;
    proof {
        assert(a@.skip(0) =~= a@);
        assert(b@.skip(0) =~= b@);
    }
    loop
        invariant
            av@ == a@,
            bv@ == b@,
            i <= av@.len(),
            i <= bv@.len(),
            lex_le(a@, b@) == lex_le(a@.skip(i as int), b@.skip(i as int)),
        decreases av@.len() - i,
    {
        if i == av.len() {
            proof {
                assert(a@.skip(i as int) =~= Seq::<char>::empty());
            }
            return true;
        }
        if i == bv.len() {
            proof {
                assert(b@.skip(i as int) =~= Seq::<char>::empty());
                assert(a@.skip(i as int).len() > 0);
            }
            return false;
        }
        let ca = av[i] as u32;
        let cb = bv[i] as u32;
        proof {
            assert(a@.skip(i as int)[0] == a@[i as int]);
            assert(b@.skip(i as int)[0] == b@[i as int]);
        }
        if ca == cb {
            proof {
                assert(a@.skip(i as int).drop_first() =~= a@.skip(i + 1));
                assert(b@.skip(i as int).drop_first() =~= b@.skip(i + 1));
            }
            i += 1;
        } else {
            return ca < cb;
        }
    }
}

/// The names are in strictly ascending lexicographic order.
pub open spec fn sorted_names(v: Seq<Seq<char>>) -> bool {
    forall|i: int, j: int| 0 <= i < j < v.len() ==> lex_le(v[i], v[j]) && v[i] != v[j]
}

/// The character sequences of the vector's elements.
pub open spec fn name_views(v: Seq<String>) -> Seq<Seq<char>> {
    v.map(|i: int, s: String| s@)
}

/// Inserts a name not yet present into a sorted vector, keeping it sorted.
fn insert_sorted(v: &mut Vec<String>, x: String)
    requires
        sorted_names(name_views(old(v)@)),
        forall|j: int| 0 <= j < old(v)@.len() ==> old(v)@[j]@ != x@,
    ensures
        sorted_names(name_views(final(v)@)),
        final(v)@.len() == old(v)@.len() + 1,
        forall|n: Seq<char>|
            #[trigger] name_views(final(v)@).contains(n) <==> (name_views(old(v)@).contains(n)
                || n == x@),
{
    let n = v.len();
    let mut pos: usize = 0;
    while pos < n && str_le(&v[pos], &x)
        invariant
            n == v@.len(),
            v@ == old(v)@,
            pos <= n,
            forall|j: int| 0 <= j < pos ==> lex_le(v@[j]@, x@),
        decreases n - pos,
    {
        pos += 1;
    }
    let ghost before = name_views(v@);
    proof {
        if pos < v@.len() {
            lemma_lex_total(v@[pos as int]@, x@);
            assert(lex_le(x@, v@[pos as int]@));
        }
    }
    v.insert(pos, x);
    proof {
        let after = name_views(v@);
        assert(after =~= before.insert(pos as int, after[pos as int]));
        assert(after[pos as int] == x@);
        assert forall|i: int, j: int| 0 <= i < j < after.len() implies lex_le(after[i], after[j])
            && after[i] != after[j] by {
            if i < pos && j == pos {
                assert(after[i] == before[i]);
            } else if i == pos && j > pos {
                assert(after[j] == before[j - 1]);
                assert(lex_le(x@, before[pos as int]));
                if j - 1 > pos {
                    assert(lex_le(before[pos as int], before[j - 1]));
                    lemma_lex_trans(x@, before[pos as int], before[j - 1]);
                }
            } else if i < pos && j > pos {
                assert(after[i] == before[i] && after[j] == before[j - 1]);
            } else if j < pos {
                assert(after[i] == before[i] && after[j] == before[j]);
            } else {
                assert(after[i] == before[i - 1] && after[j] == before[j - 1]);
            }
        }
        assert forall|nm: Seq<char>| #[trigger] after.contains(nm) implies (before.contains(nm)
            || nm == x@) by {
            let w = choose|w: int| 0 <= w < after.len() && after[w] == nm;
            if w < pos {
                assert(before[w] == nm);
            } else if w > pos {
                assert(before[w - 1] == nm);
            }
        }
        assert forall|nm: Seq<char>| (before.contains(nm) || nm == x@) implies (
        #[trigger] after.contains(nm)) by {
            if nm == x@ {
                assert(after[pos as int] == nm);
            } else {
                let w = choose|w: int| 0 <= w < before.len() && before[w] == nm;
                if w < pos {
                    assert(after[w] == nm);
                } else {
                    assert(after[w + 1] == nm);
                }
            }
        }
    }
}

/// Relies on if_addrs::get_if_addrs, Interface::ip and Interface::is_loopback:
/// one triple per bound address — interface name, address text, whether it is
/// loopback.  What comes back depends on the machine, so nothing is promised
/// of the values.
#[verifier::external_body]
fn interface_addresses() -> Result<Vec<(String, String, bool)>, String> {
    match if_addrs::get_if_addrs() {
        Ok(addrs) => Ok(
            addrs.into_iter().map(
                |i| (i.name.clone(), i.addr.ip().to_string(), i.is_loopback()),
            ).collect(),
        ),
        Err(e) => Err(e.to_string()),
    }
}

/// The addresses enumerated under one name.
fn collect_addrs(raw: &Vec<(String, String, bool)>, name: &String) -> (r: Vec<String>)
    ensures
        r@.map(|i: int, s: String| s@) == addrs_of(tv(raw@), name@),
{
    let n = raw.len();
    let mut r: Vec<String> = Vec::new();
    let mut j: usize = 0;
    while j < n
        invariant
            n == raw@.len(),
            j <= n,
            r@.map(|i: int, s: String| s@) == addrs_of(tv(raw@).take(j as int), name@),
        decreases n - j,
    {
        let ghost pre = r@.map(|i: int, s: String| s@);
        let t = &raw[j];
        if !t.2 && t.0 == *name {
            r.push(t.1.clone());
            proof {
                assert(r@.map(|i: int, s: String| s@) =~= pre.push(raw@[j as int].1@));
            }
        }
        proof {
            assert(tv(raw@).take(j + 1 as int).drop_last() =~= tv(raw@).take(j as int));
            assert(tv(raw@).take(j + 1 as int).last() == tv(raw@)[j as int]);
            assert(r@.map(|i: int, s: String| s@) =~= addrs_of(
                tv(raw@).take(j + 1 as int),
                name@,
            ));
        }
        j += 1;
    }
    proof {
        assert(tv(raw@).take(n as int) =~= tv(raw@));
    }
    r
}

/// The names the grouping yields are pairwise distinct.
pub proof fn lemma_group_names_distinct(s: Seq<(Seq<char>, Seq<char>, bool)>)
    ensures
        forall|i: int, j: int|
            0 <= i < j < group_names(s).len() ==> group_names(s)[i] != group_names(s)[j],
    decreases s.len(),
{
    if s.len() > 0 {
        lemma_group_names_distinct(s.drop_last());
        let prev = group_names(s.drop_last());
        let t = s.last();
        if !t.2 && !prev.contains(t.0) {
            assert forall|i: int, j: int|
                0 <= i < j < group_names(s).len() implies group_names(s)[i] != group_names(
                s,
            )[j] by {
                if j == group_names(s).len() - 1 {
                    assert(!prev.contains(t.0));
                    if prev[i] == t.0 {
                        assert(prev.contains(t.0));
                    }
                }
            }
        }
    }
}

/// Groups enumerated addresses by interface name, skipping loopback
/// addresses: each non-loopback name appears exactly once, in strictly
/// ascending lexicographic order, with all of its addresses in enumeration
/// order.
pub fn group_interfaces(raw: &Vec<(String, String, bool)>) -> (r: Vec<NetworkInterface>)
    ensures
        r@.len() == group_names(tv(raw@)).len(),
        sorted_names(r@.map(|i: int, x: NetworkInterface| x.name@)),
        forall|k: int|
            0 <= k < r@.len() ==> group_names(tv(raw@)).contains(#[trigger] r@[k].name@)
                && r@[k].addresses@.map(|i: int, s: String| s@) == addrs_of(
                tv(raw@),
                r@[k].name@,
            ),
        forall|n: Seq<char>|
            #[trigger] group_names(tv(raw@)).contains(n) ==> exists|k: int|
                0 <= k < r@.len() && r@[k].name@ == n,
{
    let n = raw.len();
    let mut names: Vec<String> = Vec::new();
    let mut j: usize = 0;
    while j < n
        invariant
            n == raw@.len(),
            j <= n,
            names@.map(|i: int, s: String| s@) == group_names(tv(raw@).take(j as int)),
        decreases n - j,
    {
        let ghost pre = names@.map(|i: int, s: String| s@);
        let t = &raw[j];
        if !t.2 && !crate::text::contains_string(&names, &t.0) {
            proof {
                assert forall|x: Seq<char>| !seq_has_string(names@, x) implies !pre.contains(
                    x,
                ) by {
                    if pre.contains(x) {
                        let w = choose|w: int| 0 <= w < pre.len() && pre[w] == x;
                        assert(names@[w]@ == x);
                    }
                }
            }
            names.push(t.0.clone());
            proof {
                assert(names@.map(|i: int, s: String| s@) =~= pre.push(raw@[j as int].0@));
            }
        } else {
            proof {
                if !t.2 {
                    let w = choose|w: int| 0 <= w < names@.len() && names@[w]@ == t.0@;
                    assert(pre[w] == t.0@);
                    assert(pre.contains(raw@[j as int].0@));
                }
            }
        }
        proof {
            assert(tv(raw@).take(j + 1 as int).drop_last() =~= tv(raw@).take(j as int));
            assert(tv(raw@).take(j + 1 as int).last() == tv(raw@)[j as int]);
            assert(names@.map(|i: int, s: String| s@) =~= group_names(
                tv(raw@).take(j + 1 as int),
            ));
        }
        j += 1;
    }
    proof {
        assert(tv(raw@).take(n as int) =~= tv(raw@));
        lemma_group_names_distinct(tv(raw@));
    }
    let m = names.len();
    let mut sorted: Vec<String> = Vec::new();
    let mut q: usize = 0;
    while q < m
        invariant
            m == names@.len(),
            name_views(names@) == group_names(tv(raw@)),
            forall|a: int, b: int|
                0 <= a < b < names@.len() ==> name_views(names@)[a] != name_views(names@)[b],
            q <= m,
            sorted@.len() == q,
            sorted_names(name_views(sorted@)),
            forall|x: Seq<char>|
                #[trigger] name_views(sorted@).contains(x) <==> name_views(names@).take(
                    q as int,
                ).contains(x),
        decreases m - q,
    {
        let ghost pre_sorted = name_views(sorted@);
        proof {
            assert forall|w: int| 0 <= w < sorted@.len() implies sorted@[w]@ != names@[q as int]@
                by {
                if sorted@[w]@ == names@[q as int]@ {
                    assert(pre_sorted[w] == names@[q as int]@);
                    assert(pre_sorted.contains(names@[q as int]@));
                    let u = choose|u: int|
                        0 <= u < q && name_views(names@).take(q as int)[u] == names@[q as int]@;
                    assert(name_views(names@)[u] == name_views(names@)[q as int]);
                }
            }
        }
        insert_sorted(&mut sorted, names[q].clone());
        proof {
            assert forall|x: Seq<char>| #[trigger] name_views(sorted@).contains(x) implies
                name_views(names@).take(q + 1 as int).contains(x) by {
                if pre_sorted.contains(x) {
                    let u = choose|u: int|
                        0 <= u < q && name_views(names@).take(q as int)[u] == x;
                    assert(name_views(names@).take(q + 1 as int)[u] == x);
                } else {
                    assert(x == names@[q as int]@);
                    assert(name_views(names@).take(q + 1 as int)[q as int] == x);
                }
            }
            assert forall|x: Seq<char>| name_views(names@).take(q + 1 as int).contains(
                x,
            ) implies #[trigger] name_views(sorted@).contains(x) by {
                let u = choose|u: int|
                    0 <= u < q + 1 && (#[trigger] name_views(names@).take(q + 1 as int)[u]) == x;
                if u < q {
                    assert(name_views(names@).take(q as int)[u] == x);
                } else {
                    assert(x == names@[q as int]@);
                }
            }
        }
        q += 1;
    }
    proof {
        assert(name_views(names@).take(m as int) =~= name_views(names@));
    }
    let mut r: Vec<NetworkInterface> = Vec::new();
    let mut k: usize = 0;
    while k < m
        invariant
            m == sorted@.len(),
            k <= m,
            r@.len() == k,
            sorted_names(name_views(sorted@)),
            forall|x: Seq<char>|
                #[trigger] name_views(sorted@).contains(x) <==> group_names(tv(raw@)).contains(x),
            forall|i: int|
                0 <= i < k ==> (#[trigger] r@[i]).name@ == sorted@[i]@
                    && r@[i].addresses@.map(|w: int, s: String| s@) == addrs_of(
                    tv(raw@),
                    sorted@[i]@,
                ),
        decreases m - k,
    {
        let addresses = collect_addrs(raw, &sorted[k]);
        r.push(NetworkInterface { name: sorted[k].clone(), addresses });
        k += 1;
    }
    proof {
        assert(r@.map(|i: int, x: NetworkInterface| x.name@) =~= name_views(sorted@));
        assert forall|w: int| 0 <= w < r@.len() implies group_names(tv(raw@)).contains(
            #[trigger] r@[w].name@,
        ) by {
            assert(name_views(sorted@)[w] == r@[w].name@);
            assert(name_views(sorted@).contains(r@[w].name@));
        }
        assert forall|x: Seq<char>| #[trigger] group_names(tv(raw@)).contains(x) implies (exists|
            w: int,
        |
            0 <= w < r@.len() && r@[w].name@ == x) by {
            assert(name_views(sorted@).contains(x));
            let w = choose|w: int| 0 <= w < sorted@.len() && name_views(sorted@)[w] == x;
            assert(r@[w].name@ == x);
        }
    }
    r
}

/// The machine's non-loopback interfaces, grouped name → addresses and sorted
/// by name; the empty list when enumeration fails.  Each reported name comes
/// exactly once, in strictly ascending order, with every address enumerated
/// under it.
pub fn get_interfaces() -> (r: Vec<NetworkInterface>)
    ensures
        sorted_names(r@.map(|i: int, x: NetworkInterface| x.name@)),
        exists|raw: Seq<(Seq<char>, Seq<char>, bool)>|
            {
                &&& r@.len() == group_names(raw).len()
                &&& forall|k: int|
                    0 <= k < r@.len() ==> group_names(raw).contains(#[trigger] r@[k].name@)
                        && r@[k].addresses@.map(|i: int, s: String| s@) == addrs_of(
                        raw,
                        r@[k].name@,
                    )
                &&& forall|n: Seq<char>|
                    #[trigger] group_names(raw).contains(n) ==> exists|k: int|
                        0 <= k < r@.len() && r@[k].name@ == n
            },
{
    let raw = match interface_addresses() {
        Ok(v) => v,
        Err(_) => Vec::new(),
    };
    let r = group_interfaces(&raw);
    proof {
        let w = tv(raw@);
        assert(r@.len() == group_names(w).len());
    }
    r
}

/// The command-surface name for the interface query.
pub fn get_network_interfaces() -> (r: Vec<NetworkInterface>)
    ensures
        sorted_names(r@.map(|i: int, x: NetworkInterface| x.name@)),
        exists|raw: Seq<(Seq<char>, Seq<char>, bool)>|
            {
                &&& r@.len() == group_names(raw).len()
                &&& forall|k: int|
                    0 <= k < r@.len() ==> group_names(raw).contains(#[trigger] r@[k].name@)
                        && r@[k].addresses@.map(|i: int, s: String| s@) == addrs_of(
                        raw,
                        r@[k].name@,
                    )
                &&& forall|n: Seq<char>|
                    #[trigger] group_names(raw).contains(n) ==> exists|k: int|
                        0 <= k < r@.len() && r@[k].name@ == n
            },
{
    get_interfaces()
}

} // verus!
