//! Member tables (field or variant ordinals with optional names) and the
//! checks that keep them unambiguous: non-empty, no repeated ordinal, no
//! repeated name.

use vstd::prelude::*;

verus! {

/// A violated invariant of a type's declaration.
#[derive(Clone, Copy, Debug, PartialEq, Eq)]
pub enum Defect {
    /// The member table is empty.
    EmptyType,
    /// The ordinal occurs more than once; it is the first member whose
    /// ordinal repeats an earlier one.
    RepeatedIds(u8),
    /// The name occurs more than once; it is the first member whose name
    /// repeats an earlier one.
    RepeatedNames(&'static str),
    /// A live value reported a variant name that its table does not declare.
    UnknownVariant(&'static str),
    /// The lowest declared ordinal of an enum does not reconstruct a value.
    UnreconstructibleOrdinal(u8),
}

/// A raw value that names no declared variant of an enum or union: the
/// type's name and the value. Unlike a [`Defect`], this is an ordinary
/// outcome for untrusted input.
#[derive(Clone, Debug, PartialEq, Eq)]
pub struct VariantError<V>(pub String, pub V);

/// The ordinal of the first member called `name`.
pub open spec fn ordinal_lookup(m: Seq<(u8, &'static str)>, name: Seq<char>) -> Option<u8>
    decreases m.len(),
{
    if m.len() == 0 {
        None
    } else if m[0].1@ == name {
        Some(m[0].0)
    } else {
        ordinal_lookup(m.drop_first(), name)
    }
}

/// The name of the first member with ordinal `ord`.
pub open spec fn name_lookup(m: Seq<(u8, &'static str)>, ord: u8) -> Option<&'static str>
    decreases m.len(),
{
    if m.len() == 0 {
        None
    } else if m[0].0 == ord {
        Some(m[0].1)
    } else {
        name_lookup(m.drop_first(), ord)
    }
}

/// The smallest element of a non-empty sequence of ordinals.
pub open spec fn lowest(s: Seq<u8>) -> u8
    decreases s.len(),
{
    if s.len() <= 1 {
        s[0]
    } else {
        let rest = lowest(s.drop_first());
        if s[0] <= rest {
            s[0]
        } else {
            rest
        }
    }
}

/// No two positions of `s` hold the same element.
pub open spec fn distinct<A>(s: Seq<A>) -> bool {
    forall|i: int, j: int| 0 <= i < j < s.len() ==> s[i] != s[j]
}

/// The first position whose element repeats one at an earlier position.
pub open spec fn first_repeat<A>(s: Seq<A>) -> Option<int>
    decreases s.len(),
{
    if s.len() == 0 {
        None
    } else {
        match first_repeat(s.drop_last()) {
            Some(j) => Some(j),
            None => if s.drop_last().contains(s.last()) {
                Some(s.len() - 1)
            } else {
                None
            },
        }
    }
}

/// The ordinals of a named member table, in declared order.
pub open spec fn ids_of(m: Seq<(u8, &'static str)>) -> Seq<u8> {
    Seq::new(m.len(), |i: int| m[i].0)
}

/// The names of a named member table, as characters, in declared order.
pub open spec fn names_of(m: Seq<(u8, &'static str)>) -> Seq<Seq<char>> {
    Seq::new(m.len(), |i: int| m[i].1@)
}

/// What the check of a tuple's field ordinals reports.
pub open spec fn tuple_defects(f: Seq<u8>) -> Seq<Defect> {
    if f.len() == 0 {
        seq![Defect::EmptyType]
    } else {
        match first_repeat(f) {
            Some(j) => seq![Defect::RepeatedIds(f[j])],
            None => Seq::empty(),
        }
    }
}

/// What the check of a named member table reports: a repeated ordinal and a
/// repeated name are found independently of each other.
pub open spec fn named_defects(m: Seq<(u8, &'static str)>) -> Seq<Defect> {
    if m.len() == 0 {
        seq![Defect::EmptyType]
    } else {
        let ids: Seq<Defect> = match first_repeat(ids_of(m)) {
            Some(j) => seq![Defect::RepeatedIds(m[j].0)],
            None => Seq::empty(),
        };
        let names: Seq<Defect> = match first_repeat(names_of(m)) {
            Some(j) => seq![Defect::RepeatedNames(m[j].1)],
            None => Seq::empty(),
        };
        ids + names
    }
}

/// A repeat is found exactly when the elements are not distinct, and then at
/// a position whose element occurs earlier.
pub proof fn lemma_first_repeat<A>(s: Seq<A>)
    ensures
        first_repeat(s) is None <==> distinct(s),
        first_repeat(s) matches Some(j) ==> 0 <= j < s.len() && s.take(j).contains(s[j])
            && distinct(s.take(j)),
    decreases s.len(),
{
    if s.len() > 0 {
        let p = s.drop_last();
        lemma_first_repeat(p);
        match first_repeat(p) {
            Some(j) => {
                assert(p.take(j) =~= s.take(j));
                assert(p[j] == s[j]);
                let k = choose|k: int| 0 <= k < p.take(j).len() && p.take(j)[k] == p[j];
                assert(s[k] == s[j]);
            },
            None => {
                assert(p =~= s.take(s.len() - 1));
                if p.contains(s.last()) {
                    let k = choose|k: int| 0 <= k < p.len() && p[k] == s.last();
                    assert(s[k] == s[s.len() - 1]);
                } else {
                    assert forall|i: int, j: int| 0 <= i < j < s.len() implies s[i] != s[j] by {
                        if j == s.len() - 1 {
                            assert(p[i] == s[i]);
                        } else {
                            assert(p[i] == s[i] && p[j] == s[j]);
                        }
                    }
                }
            },
        }
    }
}

/// A non-empty tuple table without repeated ordinals passes its check.
pub proof fn lemma_distinct_tuple_accepted(f: Seq<u8>)
    requires
        f.len() > 0,
        distinct(f),
    ensures
        tuple_defects(f).len() == 0,
{
    lemma_first_repeat(f);
}

/// A non-empty named table without repeated ordinals or names passes its
/// check.
pub proof fn lemma_distinct_named_accepted(m: Seq<(u8, &'static str)>)
    requires
        m.len() > 0,
        distinct(ids_of(m)),
        distinct(names_of(m)),
    ensures
        named_defects(m).len() == 0,
{
    lemma_first_repeat(ids_of(m));
    lemma_first_repeat(names_of(m));
}

/// An empty table, of either kind, is reported as empty and nothing else.
pub proof fn lemma_empty_rejected()
    ensures
        tuple_defects(Seq::empty()) == seq![Defect::EmptyType],
        named_defects(Seq::empty()) == seq![Defect::EmptyType],
{
}

/// A tuple table with a repeated ordinal is reported for that defect alone,
/// naming an ordinal that occurs twice.
pub proof fn lemma_repeated_tuple_id_rejected(f: Seq<u8>)
    requires
        !distinct(f),
    ensures
        exists|i: int, j: int|
            0 <= i < j < f.len() && f[i] == f[j] && tuple_defects(f) == seq![
                Defect::RepeatedIds(f[j]),
            ],
{
    lemma_first_repeat(f);
    let j = first_repeat(f)->0;
    let i = choose|i: int| 0 <= i < f.take(j).len() && f.take(j)[i] == f[j];
    assert(f[i] == f[j]);
}

/// In a non-empty named table, a repeated ordinal is reported exactly when
/// one occurs, and a repeated name exactly when one occurs, each whatever
/// holds of the other.
pub proof fn lemma_repeats_reported_independently(m: Seq<(u8, &'static str)>)
    requires
        m.len() > 0,
    ensures
        !distinct(ids_of(m)) <==> exists|o: u8| named_defects(m).contains(Defect::RepeatedIds(o)),
        !distinct(names_of(m)) <==> exists|n: &'static str|
            named_defects(m).contains(Defect::RepeatedNames(n)),
{
    let ids = ids_of(m);
    let names = names_of(m);
    lemma_first_repeat(ids);
    lemma_first_repeat(names);
    let d = named_defects(m);
    let a: Seq<Defect> = match first_repeat(ids) {
        Some(j) => seq![Defect::RepeatedIds(m[j].0)],
        None => Seq::empty(),
    };
    let b: Seq<Defect> = match first_repeat(names) {
        Some(j) => seq![Defect::RepeatedNames(m[j].1)],
        None => Seq::empty(),
    };
    assert(d == a + b);
    assert forall|k: int| 0 <= k < a.len() implies a[k] is RepeatedIds by {}
    assert forall|k: int| 0 <= k < b.len() implies b[k] is RepeatedNames by {}
    if let Some(j) = first_repeat(ids) {
        assert(d[0] == Defect::RepeatedIds(m[j].0));
        assert(d.contains(Defect::RepeatedIds(m[j].0)));
    } else {
        assert forall|o: u8| !d.contains(Defect::RepeatedIds(o)) by {
            if d.contains(Defect::RepeatedIds(o)) {
                let k = choose|k: int| 0 <= k < d.len() && d[k] == Defect::RepeatedIds(o);
                assert(d[k] == b[k]);
            }
        }
    }
    if let Some(j) = first_repeat(names) {
        assert(d[a.len() as int] == Defect::RepeatedNames(m[j].1));
        assert(d.contains(Defect::RepeatedNames(m[j].1)));
    } else {
        assert forall|n: &'static str| !d.contains(Defect::RepeatedNames(n)) by {
            if d.contains(Defect::RepeatedNames(n)) {
                let k = choose|k: int| 0 <= k < d.len() && d[k] == Defect::RepeatedNames(n);
                assert(d[k] == a[k]);
            }
        }
    }
}

/// The name found for an ordinal belongs to a member with that ordinal;
/// none is found for an ordinal that no member has.
pub proof fn lemma_name_lookup(m: Seq<(u8, &'static str)>, o: u8)
    ensures
        name_lookup(m, o) matches Some(n) ==> exists|k: int|
            0 <= k < m.len() && m[k].0 == o && m[k].1 == n,
        name_lookup(m, o) is None <==> !ids_of(m).contains(o),
    decreases m.len(),
{
    if m.len() > 0 {
        let t = m.drop_first();
        lemma_name_lookup(t, o);
        if m[0].0 == o {
            assert(ids_of(m)[0] == o);
        } else {
            if let Some(n) = name_lookup(t, o) {
                let k = choose|k: int| 0 <= k < t.len() && t[k].0 == o && t[k].1 == n;
                assert(m[k + 1] == t[k]);
                assert(ids_of(t)[k] == o);
            }
            if ids_of(m).contains(o) {
                let k = choose|k: int| 0 <= k < ids_of(m).len() && ids_of(m)[k] == o;
                assert(ids_of(t)[k - 1] == o);
            }
            if ids_of(t).contains(o) {
                let k = choose|k: int| 0 <= k < ids_of(t).len() && ids_of(t)[k] == o;
                assert(ids_of(m)[k + 1] == o);
            }
        }
    }
}

/// In a table without repeated names, a declared ordinal resolves to a name
/// that resolves back to the same ordinal, and an ordinal that is not
/// declared resolves to no name.
pub proof fn lemma_ordinal_round_trip(m: Seq<(u8, &'static str)>, o: u8)
    requires
        distinct(names_of(m)),
    ensures
        ids_of(m).contains(o) ==> (name_lookup(m, o) matches Some(n) && ordinal_lookup(m, n@)
            == Some(o)),
        !ids_of(m).contains(o) ==> name_lookup(m, o) is None,
    decreases m.len(),
{
    lemma_name_lookup(m, o);
    if m.len() > 0 && ids_of(m).contains(o) && m[0].0 != o {
        let t = m.drop_first();
        assert forall|i: int, j: int| 0 <= i < j < t.len() implies names_of(t)[i] != names_of(
            t,
        )[j] by {
            assert(names_of(m)[i + 1] != names_of(m)[j + 1]);
        }
        let k = choose|k: int| 0 <= k < ids_of(m).len() && ids_of(m)[k] == o;
        assert(ids_of(t)[k - 1] == o);
        lemma_ordinal_round_trip(t, o);
        lemma_name_lookup(t, o);
        let n = name_lookup(t, o)->0;
        let q = choose|q: int| 0 <= q < t.len() && t[q].0 == o && t[q].1 == n;
        assert(names_of(m)[0] != names_of(m)[q + 1]);
    }
}

/// Position of the first ordinal that repeats an earlier one.
fn first_repeated_ordinal(s: &[u8]) -> (r: Option<usize>)
    ensures
        r matches Some(j) ==> j < s@.len() && first_repeat(s@) == Some(j as int),
        r is None ==> first_repeat(s@) is None,
{
    let n = s.len();
    let mut j: usize = 0;
    while j < n
        invariant
            n == s@.len(),
            j <= n,
            first_repeat(s@.take(j as int)) is None,
        decreases n - j,
    {
        let x = s[j];
        let mut i: usize = 0;
        let mut seen = false;
        while i < j
            invariant
                j < n == s@.len(),
                i <= j,
                x == s@[j as int],
                seen <==> exists|k: int| 0 <= k < i && s@[k] == x,
            decreases j - i,
        {
            if s[i] == x {
                seen = true;
            }
            i = i + 1;
        }
        let ghost t = s@.take(j as int + 1);
        assert(t.drop_last() =~= s@.take(j as int));
        if seen {
            let ghost k = choose|k: int| 0 <= k < j && s@[k] == x;
            assert(s@.take(j as int)[k] == x);
            assert(first_repeat(t) == Some(j as int));
            proof { lemma_first_repeat_extends(s@, j as int + 1); }
            return Some(j);
        }
        j = j + 1;
    }
    assert(s@.take(n as int) =~= s@);
    None
}

/// A repeat found in a prefix is the first repeat of the whole sequence.
proof fn lemma_first_repeat_extends<A>(s: Seq<A>, k: int)
    requires
        0 <= k <= s.len(),
        first_repeat(s.take(k)) is Some,
    ensures
        first_repeat(s) == first_repeat(s.take(k)),
    decreases s.len() - k,
{
    if k < s.len() {
        assert(s.take(k + 1).drop_last() =~= s.take(k));
        lemma_first_repeat_extends(s, k + 1);
    } else {
        assert(s.take(k) =~= s);
    }
}

/// Whether two texts hold the same characters.
pub fn same_text(a: &str, b: &str) -> (r: bool)
    ensures
        r == (a@ == b@),
{
    let n = a.unicode_len();
    if n != b.unicode_len() {
        return false;
    }
    let mut i: usize = 0;
    while i < n
        invariant
            n == a@.len() == b@.len(),
            i <= n,
            forall|k: int| 0 <= k < i ==> a@[k] == b@[k],
        decreases n - i,
    {
        if a.get_char(i) != b.get_char(i) {
            return false;
        }
        i = i + 1;
    }
    assert(a@ =~= b@);
    true
}

/// Position of the first member whose name repeats an earlier one.
fn first_repeated_name(m: &[(u8, &'static str)]) -> (r: Option<usize>)
    ensures
        r matches Some(j) ==> j < m@.len() && first_repeat(names_of(m@)) == Some(j as int),
        r is None ==> first_repeat(names_of(m@)) is None,
{
    let ghost s = names_of(m@);
    let n = m.len();
    let mut j: usize = 0;
    while j < n
        invariant
            n == m@.len() == s.len(),
            s == names_of(m@),
            j <= n,
            first_repeat(s.take(j as int)) is None,
        decreases n - j,
    {
        let x = m[j].1;
        let mut i: usize = 0;
        let mut seen = false;
        while i < j
            invariant
                j < n == m@.len() == s.len(),
                s == names_of(m@),
                i <= j,
                x@ == s[j as int],
                seen <==> exists|k: int| 0 <= k < i && s[k] == x@,
            decreases j - i,
        {
            assert(s[i as int] == m@[i as int].1@);
            if same_text(m[i].1, x) {
                seen = true;
            }
            i = i + 1;
        }
        let ghost t = s.take(j as int + 1);
        assert(t.drop_last() =~= s.take(j as int));
        if seen {
            let ghost k = choose|k: int| 0 <= k < j && s[k] == x@;
            assert(s.take(j as int)[k] == x@);
            assert(first_repeat(t) == Some(j as int));
            proof { lemma_first_repeat_extends(s, j as int + 1); }
            return Some(j);
        }
        j = j + 1;
    }
    assert(s.take(n as int) =~= s);
    None
}

/// The ordinals of a named member table.
fn ordinals(m: &[(u8, &'static str)]) -> (r: Vec<u8>)
    ensures
        r@ == ids_of(m@),
{
    let mut r: Vec<u8> = Vec::new();
    let mut i: usize = 0;
    while i < m.len()
        invariant
            i <= m@.len(),
            r@ == ids_of(m@).take(i as int),
        decreases m@.len() - i,
    {
        r.push(m[i].0);
        i = i + 1;
        assert(r@ =~= ids_of(m@).take(i as int));
    }
    assert(r@ =~= ids_of(m@));
    r
}

/// Checks the field ordinals of a tuple type: reports an empty table, or else
/// the first ordinal that repeats.
pub fn check_tuple_fields(fields: &[u8]) -> (r: Vec<Defect>)
    ensures
        r@ == tuple_defects(fields@),
{
    if fields.len() == 0 {
        return vec![Defect::EmptyType];
    }
    let mut r: Vec<Defect> = Vec::new();
    if let Some(j) = first_repeated_ordinal(fields) {
        r.push(Defect::RepeatedIds(fields[j]));
    }
    assert(r@ =~= tuple_defects(fields@));
    r
}

/// Checks a named member table (struct fields, or enum and union variants):
/// reports an empty table, or else the first repeated ordinal and the first
/// repeated name, each whether or not the other is found.
pub fn check_named_members(members: &[(u8, &'static str)]) -> (r: Vec<Defect>)
    ensures
        r@ == named_defects(members@),
{
    if members.len() == 0 {
        return vec![Defect::EmptyType];
    }
    let mut r: Vec<Defect> = Vec::new();
    let ids = ordinals(members);
    if let Some(j) = first_repeated_ordinal(ids.as_slice()) {
        r.push(Defect::RepeatedIds(members[j].0));
    }
    if let Some(j) = first_repeated_name(members) {
        r.push(Defect::RepeatedNames(members[j].1));
    }
    assert(r@ =~= named_defects(members@));
    r
}

/// The ordinal that a member table pairs with `name`, if it declares that
/// name.
pub fn ordinal_of(members: &[(u8, &'static str)], name: &str) -> (r: Option<u8>)
    ensures
        r == ordinal_lookup(members@, name@),
{
    let mut i: usize = 0;
    assert(members@.skip(0) =~= members@);
    while i < members.len()
        invariant
            i <= members@.len(),
            ordinal_lookup(members@, name@) == ordinal_lookup(members@.skip(i as int), name@),
        decreases members@.len() - i,
    {
        assert(members@.skip(i as int)[0] == members@[i as int]);
        if same_text(members[i].1, name) {
            return Some(members[i].0);
        }
        assert(members@.skip(i as int).drop_first() =~= members@.skip(i as int + 1));
        i = i + 1;
    }
    None
}

/// The name that a member table pairs with `ord`, if it declares that
/// ordinal.
pub fn name_of(members: &[(u8, &'static str)], ord: u8) -> (r: Option<&'static str>)
    ensures
        r == name_lookup(members@, ord),
{
    let mut i: usize = 0;
    assert(members@.skip(0) =~= members@);
    while i < members.len()
        invariant
            i <= members@.len(),
            name_lookup(members@, ord) == name_lookup(members@.skip(i as int), ord),
        decreases members@.len() - i,
    {
        assert(members@.skip(i as int)[0] == members@[i as int]);
        if members[i].0 == ord {
            return Some(members[i].1);
        }
        assert(members@.skip(i as int).drop_first() =~= members@.skip(i as int + 1));
        i = i + 1;
    }
    None
}

/// Resolves a raw ordinal of an enum named `ty` to its declared
/// variant name, or reports the value as unrepresentable.
pub fn variant_from_ordinal(members: &[(u8, &'static str)], ty: &str, ord: u8) -> (r: Result<
    &'static str,
    VariantError<u8>,
>)
    ensures
        match name_lookup(members@, ord) {
            Some(n) => r == Ok::<&'static str, VariantError<u8>>(n),
            None => r matches Err(e) && e.0@ == ty@ && e.1 == ord,
        },
{
    match name_of(members, ord) {
        Some(n) => Ok(n),
        None => Err(VariantError(ty.to_owned(), ord)),
    }
}

/// The lowest ordinal of a non-empty member table.
pub fn lowest_ordinal(members: &[(u8, &'static str)]) -> (r: u8)
    requires
        members@.len() > 0,
    ensures
        r == lowest(ids_of(members@)),
{
    let ghost s = ids_of(members@);
    let n = members.len();
    let mut i: usize = n - 1;
    let mut r: u8 = members[i].0;
    assert(s.skip(i as int) =~= seq![s[i as int]]);
    while i > 0
        invariant
            0 <= i < n == members@.len() == s.len(),
            s == ids_of(members@),
            r == lowest(s.skip(i as int)),
        decreases i,
    {
        i = i - 1;
        assert(s.skip(i as int).drop_first() =~= s.skip(i as int + 1));
        assert(s.skip(i as int)[0] == members@[i as int].0);
        if members[i].0 <= r {
            r = members[i].0;
        }
    }
    assert(s.skip(0) =~= s);
    r
}

} // verus!
